use vstd::prelude::*;

use crate::domain::geography::elevation::OCEAN_LEVEL;
use crate::domain::world_data::map::WorldMap;
use crate::services::algorithms::grid::{
    adjacent, cell_index, cell_of, grid_neighbors, lemma_adjacent_listed, lemma_cell_index_injective,
    lemma_cell_of_index, move_cost, on_grid,
};
use crate::services::algorithms::min_queue::{entry_le, MinQueue, QueueEntry};
use crate::services::algorithms::path_finder::PathFinder;
use crate::services::algorithms::search::{
    dist, is_land, lemma_on_grid_index, lemma_queued_after_push, lemma_queued_after_remove,
    lemma_score_total_update, queued, reached, score_total, step_between, tables_fit,
};

verus! {

/// Floods the land around a cell within a movement budget.
pub struct DijkstraFlood;

/// Every queued entry names an on-grid cell, costs no less than the
/// cell's best cost, and stays within the budget.
pub open spec fn entries_ok(map: WorldMap, pf: PathFinder, q: Seq<QueueEntry>, budget: u32) -> bool {
    forall|k: int|
        0 <= k < q.len() ==> {
            &&& on_grid((#[trigger] q[k]).1, map.width, map.height)
            &&& q[k].0 >= dist(pf, q[k].1, map.width)
            &&& q[k].0 <= budget
            &&& q[k].0 < u32::MAX
        }
}

/// Every reached-for but unsettled cell waits in the queue at its best cost.
pub open spec fn pending_queued(map: WorldMap, pf: PathFinder, q: Seq<QueueEntry>) -> bool {
    forall|p: (usize, usize)|
        on_grid(p, map.width, map.height) && #[trigger] dist(pf, p, map.width) < u32::MAX && !reached(
            pf,
            p,
            map.width,
        ) ==> queued(q, dist(pf, p, map.width), p)
}

/// Settled cells, keyed by cost and then by cell, come no later than
/// anything still queued.
pub open spec fn settled_first(map: WorldMap, pf: PathFinder, q: Seq<QueueEntry>) -> bool {
    forall|p: (usize, usize), k: int|
        #![trigger reached(pf, p, map.width), q[k]]
        on_grid(p, map.width, map.height) && reached(pf, p, map.width) && 0 <= k < q.len() ==> entry_le(
            (dist(pf, p, map.width), p),
            q[k],
        )
}

/// Settled cells are within the budget, and below `u32::MAX`.
pub open spec fn settled_within(map: WorldMap, pf: PathFinder, budget: u32) -> bool {
    forall|p: (usize, usize)|
        on_grid(p, map.width, map.height) && #[trigger] reached(pf, p, map.width) ==> dist(
            pf,
            p,
            map.width,
        ) <= budget && dist(pf, p, map.width) < u32::MAX
}

/// The start costs nothing; any other cell with a cost is land, reached by
/// one step from a settled neighbour.
pub open spec fn flood_sound(map: WorldMap, pf: PathFinder, start: (usize, usize)) -> bool {
    &&& dist(pf, start, map.width) == 0
    &&& forall|p: (usize, usize)|
        on_grid(p, map.width, map.height) && p != start && #[trigger] dist(pf, p, map.width)
            < u32::MAX ==> is_land(map, p) && exists|q: (usize, usize)|
            on_grid(q, map.width, map.height) && adjacent(q, p) && #[trigger] reached(
                pf,
                q,
                map.width,
            ) && dist(pf, p, map.width) == dist(pf, q, map.width) + step_between(map, q, p)
}

/// Every land neighbour of `u` reachable in one step within the budget
/// costs no more than that step.
pub open spec fn closed_at(map: WorldMap, pf: PathFinder, u: (usize, usize), budget: u32) -> bool {
    forall|v: (usize, usize)|
        on_grid(v, map.width, map.height) && adjacent(u, v) && is_land(map, v) && dist(
            pf,
            u,
            map.width,
        ) + step_between(map, u, v) <= budget && dist(pf, u, map.width) + step_between(map, u, v)
            < u32::MAX ==> #[trigger] dist(pf, v, map.width) <= dist(pf, u, map.width)
            + step_between(map, u, v)
}

/// Every settled cell but `skip` is closed.
pub open spec fn flood_closed(
    map: WorldMap,
    pf: PathFinder,
    budget: u32,
    skip: Option<(usize, usize)>,
) -> bool {
    forall|u: (usize, usize)|
        on_grid(u, map.width, map.height) && #[trigger] reached(pf, u, map.width) && skip != Some(u)
            ==> closed_at(map, pf, u, budget)
}

/// The zone lists the settled cells, each once, in order of cost, and
/// cells of equal cost by column, then row.
pub open spec fn zone_matches(map: WorldMap, pf: PathFinder, zone: Seq<usize>) -> bool {
    &&& zone.no_duplicates()
    &&& forall|i: int| 0 <= i < zone.len() ==> #[trigger] zone[i] < map.width * map.height
    &&& forall|p: (usize, usize)|
        on_grid(p, map.width, map.height) ==> (#[trigger] reached(pf, p, map.width)
            <==> zone.contains(cell_index(p, map.width) as usize))
    &&& forall|i: int, j: int|
        0 <= i < j < zone.len() ==> pf.g_score@[#[trigger] zone[i] as int] <= pf.g_score@[
            #[trigger] zone[j] as int]
    &&& forall|i: int, j: int|
        0 <= i < j < zone.len() ==> entry_le(
            (pf.g_score@[#[trigger] zone[i] as int], cell_of(zone[i] as int, map.width)),
            (pf.g_score@[#[trigger] zone[j] as int], cell_of(zone[j] as int, map.width)),
        )
}

/// Everything the flood keeps true between two steps.
pub open spec fn flood_inv(
    map: WorldMap,
    pf: PathFinder,
    q: Seq<QueueEntry>,
    zone: Seq<usize>,
    start: (usize, usize),
    budget: u32,
    skip: Option<(usize, usize)>,
) -> bool {
    &&& tables_fit(map, pf)
    &&& on_grid(start, map.width, map.height)
    &&& entries_ok(map, pf, q, budget)
    &&& pending_queued(map, pf, q)
    &&& settled_first(map, pf, q)
    &&& settled_within(map, pf, budget)
    &&& flood_sound(map, pf, start)
    &&& flood_closed(map, pf, budget, skip)
    &&& zone_matches(map, pf, zone)
}

impl DijkstraFlood {
    /// The land cells reachable from `start` within `budget`, cheapest
    /// first, cells of equal cost by column and then row. A step costs `MOVE_COST` plus the height difference in units
    /// of `ELEVATION_PENALTY_STEP`; ocean cells are never entered. The
    /// path finder's scores end up as the cost of each settled cell.
    pub fn dijkstra_flood(map: &WorldMap, path_finder: &mut PathFinder, start: (usize, usize), budget: u32) -> (zone:
        Vec<usize>)
        requires
            tables_fit(*map, *old(path_finder)),
            on_grid(start, map.width, map.height),
        ensures
            tables_fit(*map, *final(path_finder)),
            zone_matches(*map, *final(path_finder), zone@),
            zone@.contains(cell_index(start, map.width) as usize),
            flood_sound(*map, *final(path_finder), start),
            settled_within(*map, *final(path_finder), budget),
            reached(*final(path_finder), start, map.width),
            flood_closed_under_steps(*map, *final(path_finder), budget),
    {
        let w = map.width;
        let h = map.height;
        let mut zone: Vec<usize> = Vec::new();
        let mut open_set = MinQueue::new();
        proof {
            lemma_on_grid_index(*map, *path_finder, start);
        }
        path_finder.new_generation(start, w);
        open_set.push((0, start));
        proof {
            lemma_flood_start(*map, *path_finder, open_set.view(), start, budget);
        }
        loop
            invariant
                w == map.width,
                h == map.height,
                flood_inv(*map, *path_finder, open_set.view(), zone@, start, budget, None),
            ensures
                open_set.view().len() == 0,
                flood_inv(*map, *path_finder, open_set.view(), zone@, start, budget, None),
            decreases 5 * score_total(path_finder.g_score@) + open_set.view().len(),
        {
            let ghost q0 = open_set.view();
            let ghost pf0 = *path_finder;
            let popped = open_set.pop();
            match popped {
                None => {
                    break;
                },
                Some(entry) => {
                    let current_cost = entry.0;
                    let current = entry.1;
                    let ghost k = choose|k: int|
                        0 <= k < q0.len() && popped == Some(#[trigger] q0[k]) && open_set.view()
                            == q0.remove(k) && forall|j: int|
                            0 <= j < q0.len() ==> entry_le(q0[k], #[trigger] q0[j]);
                    proof {
                        lemma_on_grid_index(*map, *path_finder, current);
                    }
                    let current_idx = PathFinder::point_to_idx(current, w);
                    if path_finder.visited[current_idx] {
                        proof {
                            lemma_pop_settled(*map, *path_finder, q0, k, zone@, start, budget);
                        }
                        continue;
                    }
                    proof {
                        lemma_pop_fresh(*map, *path_finder, q0, k, zone@, start, budget);
                    }
                    let ghost zone0 = zone@;
                    path_finder.visited.set(current_idx, true);
                    zone.push(current_idx);
                    proof {
                        lemma_settle(*map, pf0, *path_finder, q0, k, zone0, zone@, start, budget);
                    }
                    let neighbors = PathFinder::neighbors(current, w, h);
                    let ghost m0 = 5 * score_total(pf0.g_score@) + q0.len();
                    let mut j: usize = 0;
                    while j < neighbors.len()
                        invariant
                            w == map.width,
                            h == map.height,
                            neighbors@ == grid_neighbors(current, w, h),
                            j <= neighbors@.len(),
                            on_grid(current, w, h),
                            current_idx == cell_index(current, w),
                            reached(*path_finder, current, w),
                            dist(*path_finder, current, w) == current_cost,
                            current_cost <= budget,
                            forall|p: (usize, usize)|
                                on_grid(p, w, h) && #[trigger] reached(*path_finder, p, w) ==> dist(
                                    *path_finder,
                                    p,
                                    w,
                                ) <= current_cost,
                            flood_inv(
                                *map,
                                *path_finder,
                                open_set.view(),
                                zone@,
                                start,
                                budget,
                                Some(current),
                            ),
                            forall|i: int|
                                0 <= i < j ==> #[trigger] partial_closed(
                                    *map,
                                    *path_finder,
                                    current,
                                    neighbors@[i],
                                    budget,
                                ),
                            5 * score_total(path_finder.g_score@) + open_set.view().len() < m0,
                        decreases neighbors@.len() - j,
                    {
                        let neighbor = neighbors[j];
                        proof {
                            crate::services::algorithms::grid::lemma_listed_adjacent(
                                current,
                                w,
                                h,
                                j as int,
                            );
                            lemma_on_grid_index(*map, *path_finder, neighbor);
                        }
                        let neighbor_idx = PathFinder::point_to_idx(neighbor, w);
                        if !path_finder.visited[neighbor_idx]
                            && map.terrain[neighbor_idx].elevation_val >= OCEAN_LEVEL {
                            let step = move_cost(
                                map.terrain[current_idx].elevation_val,
                                map.terrain[neighbor_idx].elevation_val,
                            );
                            let tentative_g_score: u32 = current_cost.saturating_add(step);
                            if tentative_g_score <= budget
                                && tentative_g_score < path_finder.g_score[neighbor_idx] {
                                let ghost pf1 = *path_finder;
                                let ghost q1 = open_set.view();
                                path_finder.g_score.set(neighbor_idx, tentative_g_score);
                                open_set.push((tentative_g_score, neighbor));
                                proof {
                                    lemma_score_total_update(
                                        pf1.g_score@,
                                        neighbor_idx as int,
                                        tentative_g_score,
                                    );
                                    lemma_relax(
                                        *map,
                                        pf1,
                                        *path_finder,
                                        q1,
                                        zone@,
                                        start,
                                        budget,
                                        current,
                                        neighbor,
                                        tentative_g_score,
                                    );
                                    assert forall|i: int| 0 <= i < j + 1 implies #[trigger] partial_closed(
                                        *map,
                                        *path_finder,
                                        current,
                                        neighbors@[i],
                                        budget,
                                    ) by {
                                        if i < j {
                                            assert(partial_closed(
                                                *map,
                                                pf1,
                                                current,
                                                neighbors@[i],
                                                budget,
                                            ));
                                            crate::services::algorithms::grid::lemma_listed_adjacent(
                                                current,
                                                w,
                                                h,
                                                i,
                                            );
                                            lemma_on_grid_index(*map, pf1, neighbors@[i]);
                                        }
                                    }
                                }
                            } else {
                                proof {
                                    assert(partial_closed(*map, *path_finder, current, neighbor, budget));
                                }
                            }
                        } else {
                            proof {
                                if reached(*path_finder, neighbor, w) {
                                    assert(dist(*path_finder, neighbor, w) <= current_cost);
                                }
                                assert(partial_closed(*map, *path_finder, current, neighbor, budget));
                            }
                        }
                        j = j + 1;
                    }
                    proof {
                        lemma_close_current(*map, *path_finder, open_set.view(), zone@, start, budget, current, neighbors@);
                    }
                },
            }
        }
        proof {
            lemma_flood_end(*map, *path_finder, open_set.view(), zone@, start, budget);
        }
        zone
    }
}

/// Neighbour `v` of `u` satisfies `u`'s closure condition.
pub open spec fn partial_closed(map: WorldMap, pf: PathFinder, u: (usize, usize), v: (usize, usize), budget: u32) -> bool {
    is_land(map, v) && dist(pf, u, map.width) + step_between(map, u, v) <= budget && dist(
        pf,
        u,
        map.width,
    ) + step_between(map, u, v) < u32::MAX ==> dist(pf, v, map.width) <= dist(pf, u, map.width)
        + step_between(map, u, v)
}


/// Every land step from a settled cell that keeps the cost within the
/// budget (and below `u32::MAX`) leads to a settled cell costing at most
/// that much.
pub open spec fn flood_closed_under_steps(map: WorldMap, pf: PathFinder, budget: u32) -> bool {
    forall|u: (usize, usize), v: (usize, usize)|
        #![trigger reached(pf, u, map.width), reached(pf, v, map.width)]
        on_grid(u, map.width, map.height) && reached(pf, u, map.width) && on_grid(v, map.width, map.height)
            && adjacent(u, v) && is_land(map, v) && dist(pf, u, map.width) + step_between(map, u, v)
            <= budget && dist(pf, u, map.width) + step_between(map, u, v) < u32::MAX ==> reached(
            pf,
            v,
            map.width,
        ) && dist(pf, v, map.width) <= dist(pf, u, map.width) + step_between(map, u, v)
}

/// The cost of the first `n` steps of `path`.
pub open spec fn path_cost(map: WorldMap, path: Seq<(usize, usize)>, n: int) -> nat
    decreases n,
{
    if n <= 0 {
        0
    } else {
        path_cost(map, path, n - 1) + step_between(map, path[n - 1], path[n])
    }
}

/// `path` starts at `start` and walks from cell to neighbouring land cell
/// on the grid.
pub open spec fn land_walk(map: WorldMap, path: Seq<(usize, usize)>, start: (usize, usize)) -> bool {
    &&& path.len() > 0
    &&& path[0] == start
    &&& forall|i: int| 0 <= i < path.len() ==> on_grid(#[trigger] path[i], map.width, map.height)
    &&& forall|i: int|
        0 <= i < path.len() - 1 ==> adjacent(#[trigger] path[i], path[i + 1]) && is_land(
            map,
            path[i + 1],
        )
}

proof fn lemma_path_cost_mono(map: WorldMap, path: Seq<(usize, usize)>, i: int, j: int)
    requires
        0 <= i <= j,
    ensures
        path_cost(map, path, i) <= path_cost(map, path, j),
    decreases j - i,
{
    if i < j {
        lemma_path_cost_mono(map, path, i, j - 1);
    }
}

/// The flood is shortest-path complete: every land walk from the start
/// whose cost stays within the budget (and below `u32::MAX`) runs through
/// settled cells only, each settled at no more than the walk's cost to it.
pub proof fn law_flood_covers_affordable_walks(
    map: WorldMap,
    pf: PathFinder,
    start: (usize, usize),
    budget: u32,
    path: Seq<(usize, usize)>,
)
    requires
        reached(pf, start, map.width),
        dist(pf, start, map.width) == 0,
        flood_closed_under_steps(map, pf, budget),
        land_walk(map, path, start),
        path_cost(map, path, path.len() - 1) <= budget,
        path_cost(map, path, path.len() - 1) < u32::MAX,
    ensures
        forall|i: int|
            0 <= i < path.len() ==> reached(pf, #[trigger] path[i], map.width) && dist(
                pf,
                path[i],
                map.width,
            ) <= path_cost(map, path, i),
{
    assert forall|i: int| 0 <= i < path.len() implies reached(pf, #[trigger] path[i], map.width)
        && dist(pf, path[i], map.width) <= path_cost(map, path, i) by {
        lemma_walk_prefix(map, pf, start, budget, path, i);
    }
}

/// A longer path costs the same over its first `n` steps.
proof fn lemma_path_cost_push(map: WorldMap, path: Seq<(usize, usize)>, c: (usize, usize), n: int)
    requires
        0 <= n < path.len(),
    ensures
        path_cost(map, path.push(c), n) == path_cost(map, path, n),
    decreases n,
{
    if n > 0 {
        lemma_path_cost_push(map, path, c, n - 1);
        assert(path.push(c)[n - 1] == path[n - 1] && path.push(c)[n] == path[n]);
    }
}

/// A settled cell is the end of a land walk from the start that costs
/// exactly its recorded cost.
proof fn lemma_settled_chain(
    map: WorldMap,
    pf: PathFinder,
    start: (usize, usize),
    budget: u32,
    p: (usize, usize),
) -> (path: Seq<(usize, usize)>)
    requires
        on_grid(start, map.width, map.height),
        flood_sound(map, pf, start),
        settled_within(map, pf, budget),
        on_grid(p, map.width, map.height),
        reached(pf, p, map.width),
    ensures
        land_walk(map, path, start),
        path.last() == p,
        path_cost(map, path, path.len() - 1) == dist(pf, p, map.width),
    decreases dist(pf, p, map.width),
{
    let w = map.width;
    let h = map.height;
    if p == start {
        seq![start]
    } else {
        assert(dist(pf, p, w) < u32::MAX);
        let q = choose|q: (usize, usize)|
            on_grid(q, w, h) && adjacent(q, p) && #[trigger] reached(pf, q, w) && dist(pf, p, w) == dist(
                pf,
                q,
                w,
            ) + step_between(map, q, p);
        let pq = lemma_settled_chain(map, pf, start, budget, q);
        let path = pq.push(p);
        lemma_path_cost_push(map, pq, p, pq.len() - 1);
        assert(path[pq.len() - 1] == q);
        assert(path[pq.len() as int] == p);
        assert forall|i: int| 0 <= i < path.len() implies on_grid(#[trigger] path[i], w, h) by {
            if i < pq.len() {
                assert(path[i] == pq[i]);
            }
        }
        assert forall|i: int| 0 <= i < path.len() - 1 implies adjacent(#[trigger] path[i], path[i + 1])
            && is_land(map, path[i + 1]) by {
            if i < pq.len() - 1 {
                assert(path[i] == pq[i] && path[i + 1] == pq[i + 1]);
            }
        }
        path
    }
}

/// The flood grows with the budget: every cell settled by a flood from
/// `start` within `b1` is settled, at no greater cost, by a flood from
/// `start` within any `b2 >= b1`, so the first zone lies inside the second.
pub proof fn law_flood_grows_with_budget(
    map: WorldMap,
    pf1: PathFinder,
    zone1: Seq<usize>,
    pf2: PathFinder,
    zone2: Seq<usize>,
    start: (usize, usize),
    b1: u32,
    b2: u32,
)
    requires
        tables_fit(map, pf1),
        on_grid(start, map.width, map.height),
        b1 <= b2,
        zone_matches(map, pf1, zone1),
        flood_sound(map, pf1, start),
        settled_within(map, pf1, b1),
        zone_matches(map, pf2, zone2),
        flood_sound(map, pf2, start),
        reached(pf2, start, map.width),
        flood_closed_under_steps(map, pf2, b2),
    ensures
        forall|p: (usize, usize)|
            on_grid(p, map.width, map.height) && #[trigger] reached(pf1, p, map.width) ==> reached(
                pf2,
                p,
                map.width,
            ) && dist(pf2, p, map.width) <= dist(pf1, p, map.width),
        forall|c: usize| #[trigger] zone1.contains(c) ==> zone2.contains(c),
{
    let w = map.width;
    let h = map.height;
    assert forall|p: (usize, usize)|
        on_grid(p, w, h) && #[trigger] reached(pf1, p, w) implies reached(pf2, p, w) && dist(pf2, p, w)
        <= dist(pf1, p, w) by {
        let path = lemma_settled_chain(map, pf1, start, b1, p);
        law_flood_covers_affordable_walks(map, pf2, start, b2, path);
        assert(path[path.len() - 1] == p);
    }
    assert forall|c: usize| #[trigger] zone1.contains(c) implies zone2.contains(c) by {
        let i = choose|i: int| 0 <= i < zone1.len() && zone1[i] == c;
        assert(zone1[i] < w * h);
        let p = lemma_index_point(c as int, w, h);
        assert(reached(pf1, p, w));
        assert(reached(pf2, p, w));
    }
}

/// With no budget the flood settles the start alone: the zone is exactly
/// the start's index.
pub proof fn law_flood_zero_budget(map: WorldMap, pf: PathFinder, zone: Seq<usize>, start: (usize, usize))
    requires
        tables_fit(map, pf),
        on_grid(start, map.width, map.height),
        zone_matches(map, pf, zone),
        flood_sound(map, pf, start),
        settled_within(map, pf, 0),
        reached(pf, start, map.width),
    ensures
        zone == seq![cell_index(start, map.width) as usize],
{
    let w = map.width;
    let h = map.height;
    let si = cell_index(start, w) as usize;
    lemma_on_grid_index(map, pf, start);
    assert forall|i: int| 0 <= i < zone.len() implies #[trigger] zone[i] == si by {
        assert(zone[i] < w * h);
        let p = lemma_index_point(zone[i] as int, w, h);
        assert(zone.contains(cell_index(p, w) as usize));
        assert(reached(pf, p, w));
        if p != start {
            assert(dist(pf, p, w) == 0);
            let q = choose|q: (usize, usize)|
                on_grid(q, w, h) && adjacent(q, p) && #[trigger] reached(pf, q, w) && dist(pf, p, w) == dist(
                    pf,
                    q,
                    w,
                ) + step_between(map, q, p);
            assert(false);
        }
    }
    assert(zone.contains(si));
    if zone.len() > 1 {
        assert(zone[0] == si && zone[1] == si);
        assert(false);
    }
    assert(zone =~= seq![si]);
}

proof fn lemma_walk_prefix(
    map: WorldMap,
    pf: PathFinder,
    start: (usize, usize),
    budget: u32,
    path: Seq<(usize, usize)>,
    i: int,
)
    requires
        reached(pf, start, map.width),
        dist(pf, start, map.width) == 0,
        flood_closed_under_steps(map, pf, budget),
        land_walk(map, path, start),
        path_cost(map, path, path.len() - 1) <= budget,
        path_cost(map, path, path.len() - 1) < u32::MAX,
        0 <= i < path.len(),
    ensures
        reached(pf, path[i], map.width),
        dist(pf, path[i], map.width) <= path_cost(map, path, i),
    decreases i,
{
    if i > 0 {
        lemma_walk_prefix(map, pf, start, budget, path, i - 1);
        lemma_path_cost_mono(map, path, i, path.len() - 1);
        let u = path[i - 1];
        let v = path[i];
        assert(on_grid(u, map.width, map.height) && on_grid(v, map.width, map.height));
        assert(adjacent(path[i - 1], path[i - 1 + 1]) && is_land(map, path[i - 1 + 1]));
        assert(reached(pf, u, map.width));
        assert(dist(pf, u, map.width) + step_between(map, u, v) <= path_cost(map, path, i));
        assert(reached(pf, v, map.width));
    }
}

/// The state right after the start cell is queued satisfies the invariant.
proof fn lemma_flood_start(map: WorldMap, pf: PathFinder, q: Seq<QueueEntry>, start: (usize, usize), budget: u32)
    requires
        tables_fit(map, pf),
        on_grid(start, map.width, map.height),
        pf.g_score@ == Seq::new(
            pf.g_score@.len(),
            |i: int|
                if i == cell_index(start, map.width) {
                    0u32
                } else {
                    u32::MAX
                },
        ),
        forall|i: int| 0 <= i < pf.visited@.len() ==> !#[trigger] pf.visited@[i],
        q == seq![(0u32, start)],
    ensures
        flood_inv(map, pf, q, Seq::empty(), start, budget, None),
{
    let w = map.width;
    let h = map.height;
    lemma_on_grid_index(map, pf, start);
    assert forall|p: (usize, usize)|
        on_grid(p, w, h) && #[trigger] dist(pf, p, w) < u32::MAX && !reached(pf, p, w) implies queued(
        q,
        dist(pf, p, w),
        p,
    ) by {
        lemma_on_grid_index(map, pf, p);
        if p != start {
            lemma_cell_index_injective(p, start, w, h);
        }
        assert(q[0] == (0u32, start));
    }
    assert forall|p: (usize, usize)|
        on_grid(p, w, h) && p != start && #[trigger] dist(pf, p, w) < u32::MAX implies is_land(map, p)
        && exists|x: (usize, usize)|
        on_grid(x, w, h) && adjacent(x, p) && #[trigger] reached(pf, x, w) && dist(pf, p, w) == dist(
            pf,
            x,
            w,
        ) + step_between(map, x, p) by {
        lemma_on_grid_index(map, pf, p);
        lemma_cell_index_injective(p, start, w, h);
    }
    assert forall|p: (usize, usize)| on_grid(p, w, h) implies !#[trigger] reached(pf, p, w) by {
        lemma_on_grid_index(map, pf, p);
    }
}

/// Popping a settled cell's entry keeps the invariant.
proof fn lemma_pop_settled(
    map: WorldMap,
    pf: PathFinder,
    q0: Seq<QueueEntry>,
    k: int,
    zone: Seq<usize>,
    start: (usize, usize),
    budget: u32,
)
    requires
        entries_ok(map, pf, q0, budget),
        pending_queued(map, pf, q0),
        settled_first(map, pf, q0),
        0 <= k < q0.len(),
        reached(pf, q0[k].1, map.width),
    ensures
        entries_ok(map, pf, q0.remove(k), budget),
        pending_queued(map, pf, q0.remove(k)),
        settled_first(map, pf, q0.remove(k)),
{
    let w = map.width;
    let h = map.height;
    let q = q0.remove(k);
    assert forall|j: int| 0 <= j < q.len() implies {
        &&& on_grid((#[trigger] q[j]).1, w, h)
        &&& q[j].0 >= dist(pf, q[j].1, w)
        &&& q[j].0 <= budget
        &&& q[j].0 < u32::MAX
    } by {
        if j < k {
            assert(q[j] == q0[j]);
        } else {
            assert(q[j] == q0[j + 1]);
        }
    }
    assert forall|p: (usize, usize)|
        on_grid(p, w, h) && #[trigger] dist(pf, p, w) < u32::MAX && !reached(pf, p, w) implies queued(
        q,
        dist(pf, p, w),
        p,
    ) by {
        lemma_queued_after_remove(q0, k, dist(pf, p, w), p);
    }
    assert forall|p: (usize, usize), j: int|
        #![trigger reached(pf, p, w), q[j]]
        on_grid(p, w, h) && reached(pf, p, w) && 0 <= j < q.len() implies dist(pf, p, w) <= q[j].0 by {
        if j < k {
            assert(q[j] == q0[j]);
        } else {
            assert(q[j] == q0[j + 1]);
        }
    }
}

/// A popped entry of an unsettled cell carries the cell's best cost, which
/// no settled cell exceeds.
proof fn lemma_pop_fresh(
    map: WorldMap,
    pf: PathFinder,
    q0: Seq<QueueEntry>,
    k: int,
    zone: Seq<usize>,
    start: (usize, usize),
    budget: u32,
)
    requires
        flood_inv(map, pf, q0, zone, start, budget, None),
        0 <= k < q0.len(),
        !reached(pf, q0[k].1, map.width),
        forall|j: int| 0 <= j < q0.len() ==> entry_le(q0[k], #[trigger] q0[j]),
    ensures
        q0[k].0 == dist(pf, q0[k].1, map.width),
        q0[k].0 <= budget,
        forall|p: (usize, usize)|
            on_grid(p, map.width, map.height) && #[trigger] reached(pf, p, map.width) ==> dist(
                pf,
                p,
                map.width,
            ) <= q0[k].0,
        !zone.contains(cell_index(q0[k].1, map.width) as usize),
{
    let w = map.width;
    let u = q0[k].1;
    assert(on_grid(u, w, map.height));
    assert(q0[k].0 >= dist(pf, u, w));
    assert(queued(q0, dist(pf, u, w), u));
    let j = choose|j: int| 0 <= j < q0.len() && q0[j] == (dist(pf, u, w), u);
    assert(entry_le(q0[k], q0[j]));
    assert forall|p: (usize, usize)|
        on_grid(p, map.width, map.height) && #[trigger] reached(pf, p, map.width) implies dist(
        pf,
        p,
        map.width,
    ) <= q0[k].0 by {
        assert(dist(pf, p, w) <= q0[k].0);
    }
}

/// The facts about a settle step that every part of its proof uses.
pub open spec fn settle_step(
    map: WorldMap,
    pf0: PathFinder,
    pf: PathFinder,
    q0: Seq<QueueEntry>,
    k: int,
    zone0: Seq<usize>,
    zone: Seq<usize>,
    budget: u32,
) -> bool {
    &&& tables_fit(map, pf0)
    &&& 0 <= k < q0.len()
    &&& on_grid(q0[k].1, map.width, map.height)
    &&& !reached(pf0, q0[k].1, map.width)
    &&& q0[k].0 == dist(pf0, q0[k].1, map.width)
    &&& q0[k].0 <= budget
    &&& forall|j: int| 0 <= j < q0.len() ==> entry_le(q0[k], #[trigger] q0[j])
    &&& forall|p: (usize, usize)|
        on_grid(p, map.width, map.height) && #[trigger] reached(pf0, p, map.width) ==> dist(
            pf0,
            p,
            map.width,
        ) <= q0[k].0
    &&& !zone0.contains(cell_index(q0[k].1, map.width) as usize)
    &&& pf.g_score == pf0.g_score
    &&& pf.f_score == pf0.f_score
    &&& pf.came_from == pf0.came_from
    &&& pf.visited@ == pf0.visited@.update(cell_index(q0[k].1, map.width), true)
    &&& zone == zone0.push(cell_index(q0[k].1, map.width) as usize)
}

/// After settling `u`, the settled cells are the old ones and `u`.
proof fn lemma_settle_reached(
    map: WorldMap,
    pf0: PathFinder,
    pf: PathFinder,
    q0: Seq<QueueEntry>,
    k: int,
    zone0: Seq<usize>,
    zone: Seq<usize>,
    budget: u32,
)
    requires
        settle_step(map, pf0, pf, q0, k, zone0, zone, budget),
    ensures
        tables_fit(map, pf),
        forall|p: (usize, usize)|
            on_grid(p, map.width, map.height) ==> #[trigger] reached(pf, p, map.width) == (reached(
                pf0,
                p,
                map.width,
            ) || p == q0[k].1),
        forall|p: (usize, usize)| #[trigger] dist(pf, p, map.width) == dist(pf0, p, map.width),
{
    let w = map.width;
    let h = map.height;
    let u = q0[k].1;
    lemma_on_grid_index(map, pf0, u);
    assert forall|p: (usize, usize)| on_grid(p, w, h) implies #[trigger] reached(pf, p, w) == (reached(
        pf0,
        p,
        w,
    ) || p == u) by {
        lemma_on_grid_index(map, pf0, p);
        if p != u {
            lemma_cell_index_injective(p, u, w, h);
        }
    }
}

/// Settling keeps the queue's part of the invariant.
proof fn lemma_settle_queue(
    map: WorldMap,
    pf0: PathFinder,
    pf: PathFinder,
    q0: Seq<QueueEntry>,
    k: int,
    zone0: Seq<usize>,
    zone: Seq<usize>,
    budget: u32,
)
    requires
        settle_step(map, pf0, pf, q0, k, zone0, zone, budget),
        entries_ok(map, pf0, q0, budget),
        pending_queued(map, pf0, q0),
        settled_first(map, pf0, q0),
    ensures
        entries_ok(map, pf, q0.remove(k), budget),
        pending_queued(map, pf, q0.remove(k)),
        settled_first(map, pf, q0.remove(k)),
{
    let w = map.width;
    let h = map.height;
    let u = q0[k].1;
    let q = q0.remove(k);
    lemma_settle_reached(map, pf0, pf, q0, k, zone0, zone, budget);
    assert forall|j: int| 0 <= j < q.len() implies {
        &&& on_grid((#[trigger] q[j]).1, w, h)
        &&& q[j].0 >= dist(pf, q[j].1, w)
        &&& q[j].0 <= budget
        &&& q[j].0 < u32::MAX
    } by {
        if j < k {
            assert(q[j] == q0[j]);
        } else {
            assert(q[j] == q0[j + 1]);
        }
    }
    assert forall|p: (usize, usize)|
        on_grid(p, w, h) && #[trigger] dist(pf, p, w) < u32::MAX && !reached(pf, p, w) implies queued(
        q,
        dist(pf, p, w),
        p,
    ) by {
        assert(dist(pf0, p, w) < u32::MAX);
        lemma_queued_after_remove(q0, k, dist(pf, p, w), p);
    }
    assert forall|p: (usize, usize), j: int|
        #![trigger reached(pf, p, w), q[j]]
        on_grid(p, w, h) && reached(pf, p, w) && 0 <= j < q.len() implies dist(pf, p, w) <= q[j].0 by {
        let jj = if j < k {
            j
        } else {
            j + 1
        };
        assert(q[j] == q0[jj]);
        assert(entry_le(q0[k], q0[jj]));
        if p != u {
            assert(reached(pf0, p, w));
            assert(dist(pf0, p, w) <= q0[jj].0);
        }
    }
}

/// Settling keeps the cost part of the invariant, leaving `u` unclosed.
proof fn lemma_settle_costs(
    map: WorldMap,
    pf0: PathFinder,
    pf: PathFinder,
    q0: Seq<QueueEntry>,
    k: int,
    zone0: Seq<usize>,
    zone: Seq<usize>,
    start: (usize, usize),
    budget: u32,
)
    requires
        settle_step(map, pf0, pf, q0, k, zone0, zone, budget),
        settled_within(map, pf0, budget),
        entries_ok(map, pf0, q0, budget),
        flood_sound(map, pf0, start),
        flood_closed(map, pf0, budget, None),
    ensures
        settled_within(map, pf, budget),
        flood_sound(map, pf, start),
        flood_closed(map, pf, budget, Some(q0[k].1)),
{
    let w = map.width;
    let h = map.height;
    let u = q0[k].1;
    lemma_settle_reached(map, pf0, pf, q0, k, zone0, zone, budget);
    assert forall|p: (usize, usize)| on_grid(p, w, h) && #[trigger] reached(pf, p, w) implies dist(
        pf,
        p,
        w,
    ) <= budget && dist(pf, p, w) < u32::MAX by {
        if p == u {
            assert(q0[k].0 < u32::MAX);
        }
    }
    assert forall|p: (usize, usize)|
        on_grid(p, w, h) && p != start && #[trigger] dist(pf, p, w) < u32::MAX implies is_land(map, p)
        && exists|x: (usize, usize)|
        on_grid(x, w, h) && adjacent(x, p) && #[trigger] reached(pf, x, w) && dist(pf, p, w) == dist(
            pf,
            x,
            w,
        ) + step_between(map, x, p) by {
        assert(dist(pf0, p, w) < u32::MAX);
        let x = choose|x: (usize, usize)|
            on_grid(x, w, h) && adjacent(x, p) && #[trigger] reached(pf0, x, w) && dist(pf0, p, w)
                == dist(pf0, x, w) + step_between(map, x, p);
        assert(reached(pf, x, w));
    }
    assert forall|v: (usize, usize)|
        on_grid(v, w, h) && #[trigger] reached(pf, v, w) && Some(u) != Some(v) implies closed_at(
        map,
        pf,
        v,
        budget,
    ) by {
        assert(reached(pf0, v, w));
        assert(closed_at(map, pf0, v, budget));
        assert forall|y: (usize, usize)|
            on_grid(y, w, h) && adjacent(v, y) && is_land(map, y) && dist(pf, v, w) + step_between(
                map,
                v,
                y,
            ) <= budget && dist(pf, v, w) + step_between(map, v, y) < u32::MAX implies #[trigger] dist(
            pf,
            y,
            w,
        ) <= dist(pf, v, w) + step_between(map, v, y) by {
            assert(dist(pf0, y, w) <= dist(pf0, v, w) + step_between(map, v, y));
        }
    }
}

/// Settling appends `u` to the zone, keeping it in order of cost.
proof fn lemma_settle_zone(
    map: WorldMap,
    pf0: PathFinder,
    pf: PathFinder,
    q0: Seq<QueueEntry>,
    k: int,
    zone0: Seq<usize>,
    zone: Seq<usize>,
    budget: u32,
)
    requires
        settle_step(map, pf0, pf, q0, k, zone0, zone, budget),
        zone_matches(map, pf0, zone0),
        settled_first(map, pf0, q0),
    ensures
        zone_matches(map, pf, zone),
{
    let w = map.width;
    let h = map.height;
    let u = q0[k].1;
    lemma_settle_reached(map, pf0, pf, q0, k, zone0, zone, budget);
    lemma_on_grid_index(map, pf0, u);
    assert(zone.no_duplicates()) by {
        assert forall|a: int, b: int| 0 <= a < b < zone.len() implies zone[a] != zone[b] by {
            if b == zone.len() - 1 {
                assert(zone[a] == zone0[a]);
                assert(zone0.contains(zone[a]));
            } else {
                assert(zone[a] == zone0[a] && zone[b] == zone0[b]);
            }
        }
    }
    assert forall|i: int| 0 <= i < zone.len() implies #[trigger] zone[i] < w * h by {
        if i < zone0.len() {
            assert(zone[i] == zone0[i]);
        }
    }
    assert forall|p: (usize, usize)| on_grid(p, w, h) implies (#[trigger] reached(pf, p, w)
        <==> zone.contains(cell_index(p, w) as usize)) by {
        lemma_on_grid_index(map, pf0, p);
        if p != u {
            lemma_cell_index_injective(p, u, w, h);
        }
        if zone.contains(cell_index(p, w) as usize) {
            let i = choose|i: int| 0 <= i < zone.len() && zone[i] == cell_index(p, w) as usize;
            if i < zone0.len() {
                assert(zone0[i] == zone[i]);
            }
        }
        if zone0.contains(cell_index(p, w) as usize) {
            let i = choose|i: int| 0 <= i < zone0.len() && zone0[i] == cell_index(p, w) as usize;
            assert(zone[i] == zone0[i]);
        }
        assert(zone[zone0.len() as int] == cell_index(u, w) as usize);
    }
    assert forall|a: int, b: int| 0 <= a < b < zone.len() implies pf.g_score@[
        #[trigger] zone[a] as int] <= pf.g_score@[#[trigger] zone[b] as int] by {
        if b < zone0.len() {
            assert(zone[a] == zone0[a] && zone[b] == zone0[b]);
        } else {
            assert(zone[a] == zone0[a]);
            assert(zone0[a] < w * h);
            let pa = lemma_index_point(zone0[a] as int, w, h);
            assert(zone0.contains(cell_index(pa, w) as usize));
            assert(reached(pf0, pa, w));
            assert(dist(pf0, pa, w) <= q0[k].0);
        }
    }
    assert forall|a: int, b: int| 0 <= a < b < zone.len() implies entry_le(
        (pf.g_score@[#[trigger] zone[a] as int], cell_of(zone[a] as int, w)),
        (pf.g_score@[#[trigger] zone[b] as int], cell_of(zone[b] as int, w)),
    ) by {
        if b < zone0.len() {
            assert(zone[a] == zone0[a] && zone[b] == zone0[b]);
        } else {
            assert(zone[a] == zone0[a]);
            assert(zone[b] == cell_index(u, w) as usize);
            assert(zone0[a] < w * h);
            let pa = lemma_index_point(zone0[a] as int, w, h);
            assert(zone0.contains(cell_index(pa, w) as usize));
            assert(reached(pf0, pa, w));
            lemma_cell_of_index(pa, w, h);
            lemma_cell_of_index(u, w, h);
            assert(entry_le((dist(pf0, pa, w), pa), q0[k]));
        }
    }
}

/// Settling the popped cell keeps the invariant, with the cell itself not
/// yet closed.
proof fn lemma_settle(
    map: WorldMap,
    pf0: PathFinder,
    pf: PathFinder,
    q0: Seq<QueueEntry>,
    k: int,
    zone0: Seq<usize>,
    zone: Seq<usize>,
    start: (usize, usize),
    budget: u32,
)
    requires
        flood_inv(map, pf0, q0, zone0, start, budget, None),
        0 <= k < q0.len(),
        !reached(pf0, q0[k].1, map.width),
        q0[k].0 == dist(pf0, q0[k].1, map.width),
        q0[k].0 <= budget,
        forall|j: int| 0 <= j < q0.len() ==> entry_le(q0[k], #[trigger] q0[j]),
        forall|p: (usize, usize)|
            on_grid(p, map.width, map.height) && #[trigger] reached(pf0, p, map.width) ==> dist(
                pf0,
                p,
                map.width,
            ) <= q0[k].0,
        !zone0.contains(cell_index(q0[k].1, map.width) as usize),
        pf.g_score == pf0.g_score,
        pf.f_score == pf0.f_score,
        pf.came_from == pf0.came_from,
        pf.visited@ == pf0.visited@.update(cell_index(q0[k].1, map.width), true),
        zone == zone0.push(cell_index(q0[k].1, map.width) as usize),
    ensures
        flood_inv(map, pf, q0.remove(k), zone, start, budget, Some(q0[k].1)),
        forall|p: (usize, usize)|
            on_grid(p, map.width, map.height) && #[trigger] reached(pf, p, map.width) ==> dist(
                pf,
                p,
                map.width,
            ) <= q0[k].0,
{
    assert(on_grid(q0[k].1, map.width, map.height));
    assert(settle_step(map, pf0, pf, q0, k, zone0, zone, budget));
    lemma_settle_reached(map, pf0, pf, q0, k, zone0, zone, budget);
    lemma_settle_queue(map, pf0, pf, q0, k, zone0, zone, budget);
    lemma_settle_costs(map, pf0, pf, q0, k, zone0, zone, start, budget);
    lemma_settle_zone(map, pf0, pf, q0, k, zone0, zone, budget);
}

/// An index below `w * h` is the index of an on-grid cell.
proof fn lemma_index_point(i: int, w: usize, h: usize) -> (p: (usize, usize))
    requires
        0 <= i < w * h,
        w > 0,
    ensures
        on_grid(p, w, h),
        cell_index(p, w) == i,
{
    let x = i % (w as int);
    let y = i / (w as int);
    assert(0 <= x < w) by (nonlinear_arith)
        requires
            w > 0,
            x == i % (w as int),
    ;
    assert(y * w + x == i) by (nonlinear_arith)
        requires
            w > 0,
            x == i % (w as int),
            y == i / (w as int),
    ;
    assert(0 <= y < h) by (nonlinear_arith)
        requires
            w > 0,
            0 <= i < w * h,
            y == i / (w as int),
    ;
    ((x as usize), (y as usize))
}

/// Lowering an unsettled land neighbour's cost to one step past the
/// current cell keeps the invariant and closes that neighbour.
proof fn lemma_relax(
    map: WorldMap,
    pf1: PathFinder,
    pf: PathFinder,
    q1: Seq<QueueEntry>,
    zone: Seq<usize>,
    start: (usize, usize),
    budget: u32,
    u: (usize, usize),
    v: (usize, usize),
    t: u32,
)
    requires
        flood_inv(map, pf1, q1, zone, start, budget, Some(u)),
        on_grid(u, map.width, map.height),
        reached(pf1, u, map.width),
        forall|p: (usize, usize)|
            on_grid(p, map.width, map.height) && #[trigger] reached(pf1, p, map.width) ==> dist(
                pf1,
                p,
                map.width,
            ) <= dist(pf1, u, map.width),
        on_grid(v, map.width, map.height),
        adjacent(u, v),
        is_land(map, v),
        !reached(pf1, v, map.width),
        t == dist(pf1, u, map.width) + step_between(map, u, v),
        t <= budget,
        t < dist(pf1, v, map.width),
        pf.visited == pf1.visited,
        pf.f_score == pf1.f_score,
        pf.came_from == pf1.came_from,
        pf.g_score@ == pf1.g_score@.update(cell_index(v, map.width), t),
    ensures
        flood_inv(map, pf, q1.push((t, v)), zone, start, budget, Some(u)),
        reached(pf, u, map.width),
        dist(pf, u, map.width) == dist(pf1, u, map.width),
        forall|p: (usize, usize)|
            on_grid(p, map.width, map.height) && #[trigger] reached(pf, p, map.width) ==> dist(
                pf,
                p,
                map.width,
            ) <= dist(pf1, u, map.width),
        forall|p: (usize, usize)|
            on_grid(p, map.width, map.height) ==> #[trigger] dist(pf, p, map.width) <= dist(
                pf1,
                p,
                map.width,
            ),
        partial_closed(map, pf, u, v, budget),
{
    let w = map.width;
    let h = map.height;
    let q = q1.push((t, v));
    let vi = cell_index(v, w);
    lemma_on_grid_index(map, pf1, v);
    assert forall|p: (usize, usize)| on_grid(p, w, h) implies #[trigger] dist(pf, p, w) == if p == v {
        t
    } else {
        dist(pf1, p, w)
    } by {
        lemma_on_grid_index(map, pf1, p);
        if p != v {
            lemma_cell_index_injective(p, v, w, h);
        }
    }
    assert(u != v);
    assert(dist(pf, u, w) == dist(pf1, u, w));
    assert forall|p: (usize, usize)| on_grid(p, w, h) implies #[trigger] reached(pf, p, w) == reached(
        pf1,
        p,
        w,
    ) by {}
    assert forall|j: int| 0 <= j < q.len() implies {
        &&& on_grid((#[trigger] q[j]).1, w, h)
        &&& q[j].0 >= dist(pf, q[j].1, w)
        &&& q[j].0 <= budget
        &&& q[j].0 < u32::MAX
    } by {
        if j < q1.len() {
            assert(q[j] == q1[j]);
            assert(dist(pf, q1[j].1, w) <= dist(pf1, q1[j].1, w));
        }
    }
    assert forall|p: (usize, usize)|
        on_grid(p, w, h) && #[trigger] dist(pf, p, w) < u32::MAX && !reached(pf, p, w) implies queued(
        q,
        dist(pf, p, w),
        p,
    ) by {
        if p == v {
            lemma_queued_after_push(q1, (t, v), t, v);
        } else {
            assert(dist(pf1, p, w) < u32::MAX);
            lemma_queued_after_push(q1, (t, v), dist(pf, p, w), p);
        }
    }
    assert forall|p: (usize, usize), j: int|
        #![trigger reached(pf, p, w), q[j]]
        on_grid(p, w, h) && reached(pf, p, w) && 0 <= j < q.len() implies dist(pf, p, w) <= q[j].0 by {
        if j < q1.len() {
            assert(q[j] == q1[j]);
            assert(reached(pf1, p, w));
            assert(dist(pf1, p, w) <= q1[j].0);
        } else {
            assert(p != v);
            assert(dist(pf1, p, w) <= dist(pf1, u, w));
        }
    }
    assert forall|p: (usize, usize)| on_grid(p, w, h) && #[trigger] reached(pf, p, w) implies dist(
        pf,
        p,
        w,
    ) <= budget by {
        assert(reached(pf1, p, w));
    }
    assert(dist(pf1, start, w) == 0);
    assert(start != v);
    assert forall|p: (usize, usize)|
        on_grid(p, w, h) && p != start && #[trigger] dist(pf, p, w) < u32::MAX implies is_land(map, p)
        && exists|x: (usize, usize)|
        on_grid(x, w, h) && adjacent(x, p) && #[trigger] reached(pf, x, w) && dist(pf, p, w) == dist(
            pf,
            x,
            w,
        ) + step_between(map, x, p) by {
        if p == v {
            assert(reached(pf, u, w));
        } else {
            assert(dist(pf1, p, w) < u32::MAX);
            let x = choose|x: (usize, usize)|
                on_grid(x, w, h) && adjacent(x, p) && #[trigger] reached(pf1, x, w) && dist(pf1, p, w)
                    == dist(pf1, x, w) + step_between(map, x, p);
            assert(reached(pf, x, w));
            assert(x != v);
        }
    }
    assert forall|x: (usize, usize)|
        on_grid(x, w, h) && #[trigger] reached(pf, x, w) && Some(u) != Some(x) implies closed_at(
        map,
        pf,
        x,
        budget,
    ) by {
        assert(reached(pf1, x, w));
        assert(closed_at(map, pf1, x, budget));
        assert(x != v);
        assert forall|y: (usize, usize)|
            on_grid(y, w, h) && adjacent(x, y) && is_land(map, y) && dist(pf, x, w) + step_between(
                map,
                x,
                y,
            ) <= budget && dist(pf, x, w) + step_between(map, x, y) < u32::MAX implies #[trigger] dist(
            pf,
            y,
            w,
        ) <= dist(pf, x, w) + step_between(map, x, y) by {
            assert(dist(pf1, y, w) <= dist(pf1, x, w) + step_between(map, x, y));
        }
    }
    assert forall|a: int, b: int| 0 <= a < b < zone.len() implies pf.g_score@[
        #[trigger] zone[a] as int] <= pf.g_score@[#[trigger] zone[b] as int] by {
        assert(pf1.g_score@[zone[a] as int] <= pf1.g_score@[zone[b] as int]);
        assert(!zone.contains(vi as usize));
        assert(zone[a] != vi as usize);
        assert(zone[b] != vi as usize);
    }
}

/// Once every neighbour of the current cell is handled, the cell is closed.
proof fn lemma_close_current(
    map: WorldMap,
    pf: PathFinder,
    q: Seq<QueueEntry>,
    zone: Seq<usize>,
    start: (usize, usize),
    budget: u32,
    u: (usize, usize),
    nbrs: Seq<(usize, usize)>,
)
    requires
        flood_inv(map, pf, q, zone, start, budget, Some(u)),
        on_grid(u, map.width, map.height),
        nbrs == grid_neighbors(u, map.width, map.height),
        forall|i: int| 0 <= i < nbrs.len() ==> #[trigger] partial_closed(map, pf, u, nbrs[i], budget),
    ensures
        flood_inv(map, pf, q, zone, start, budget, None),
{
    let w = map.width;
    let h = map.height;
    assert forall|v: (usize, usize)|
        on_grid(v, w, h) && adjacent(u, v) && is_land(map, v) && dist(pf, u, w) + step_between(
            map,
            u,
            v,
        ) <= budget && dist(pf, u, w) + step_between(map, u, v) < u32::MAX implies #[trigger] dist(
        pf,
        v,
        w,
    ) <= dist(pf, u, w) + step_between(map, u, v) by {
        lemma_adjacent_listed(u, v, w, h);
        let i = choose|i: int| 0 <= i < nbrs.len() && nbrs[i] == v;
        assert(partial_closed(map, pf, u, nbrs[i], budget));
    }
    assert forall|x: (usize, usize)|
        on_grid(x, w, h) && #[trigger] reached(pf, x, w) && None::<(usize, usize)> != Some(x) implies closed_at(
        map,
        pf,
        x,
        budget,
    ) by {
        if x != u {
            assert(Some(u) != Some(x));
        }
    }
}

/// With the queue empty, every cell with a cost is settled, so the flood
/// is closed under affordable land steps.
proof fn lemma_flood_end(
    map: WorldMap,
    pf: PathFinder,
    q: Seq<QueueEntry>,
    zone: Seq<usize>,
    start: (usize, usize),
    budget: u32,
)
    requires
        flood_inv(map, pf, q, zone, start, budget, None),
        q.len() == 0,
    ensures
        zone.contains(cell_index(start, map.width) as usize),
        reached(pf, start, map.width),
        flood_closed_under_steps(map, pf, budget),
{
    let w = map.width;
    let h = map.height;
    assert(dist(pf, start, w) < u32::MAX);
    if !reached(pf, start, w) {
        assert(queued(q, dist(pf, start, w), start));
    }
    assert forall|u: (usize, usize), v: (usize, usize)|
        #![trigger reached(pf, u, w), reached(pf, v, w)]
        on_grid(u, w, h) && reached(pf, u, w) && on_grid(v, w, h) && adjacent(u, v) && is_land(map, v)
            && dist(pf, u, w) + step_between(map, u, v) <= budget && dist(pf, u, w) + step_between(
            map,
            u,
            v,
        ) < u32::MAX implies reached(pf, v, w) && dist(pf, v, w) <= dist(pf, u, w) + step_between(
        map,
        u,
        v,
    ) by {
        assert(closed_at(map, pf, u, budget));
        assert(dist(pf, v, w) <= dist(pf, u, w) + step_between(map, u, v));
        if !reached(pf, v, w) {
            assert(queued(q, dist(pf, v, w), v));
        }
    }
}

} // verus!
