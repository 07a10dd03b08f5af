use vstd::prelude::*;

use crate::domain::world_data::map::WorldMap;
use crate::services::algorithms::grid::{
    adjacent, cell_index, grid_neighbors, lemma_adjacent_listed, lemma_cell_index_injective,
    move_cost, on_grid, MOVE_COST,
};
use crate::services::algorithms::min_queue::{entry_le, MinQueue, QueueEntry};
use crate::services::algorithms::path_finder::PathFinder;
use crate::services::algorithms::search::{
    dist, is_walk, lemma_on_grid_index, lemma_score_total_update, lemma_walk_skip, lemma_walk_split,
    lemma_walk_take, queued, reached, score_total, step_between, tables_fit, walk_cost,
};

verus! {

/// Shortest-path search on the grid, guided by the Manhattan distance.
pub struct AStar;

/// The cell that index `i` stands for on a grid `w` wide.
pub open spec fn cell_at(i: int, w: usize) -> (usize, usize) {
    ((i % (w as int)) as usize, (i / (w as int)) as usize)
}

/// `path` lists grid cells by index, from `start` to `end`, each next to
/// the one before.
pub open spec fn grid_path(path: Seq<usize>, start: (usize, usize), end: (usize, usize), w: usize, h: usize) -> bool {
    &&& path.len() > 0
    &&& path[0] == cell_index(start, w)
    &&& path.last() == cell_index(end, w)
    &&& forall|i: int| 0 <= i < path.len() ==> on_grid(cell_at(#[trigger] path[i] as int, w), w, h)
    &&& forall|i: int|
        0 <= i < path.len() ==> #[trigger] cell_index(cell_at(path[i] as int, w), w) == path[i]
    &&& forall|i: int|
        0 <= i < path.len() - 1 ==> adjacent(
            cell_at(#[trigger] path[i] as int, w),
            cell_at(path[i + 1] as int, w),
        )
}

/// The cells that the indices of `path` stand for on a grid `w` wide.
pub open spec fn path_cells(path: Seq<usize>, w: usize) -> Seq<(usize, usize)> {
    Seq::new(path.len(), |i: int| cell_at(path[i] as int, w))
}

/// The Manhattan distance from `a` to `b`, in steps of `MOVE_COST`.
pub open spec fn manhattan_cost(a: (usize, usize), b: (usize, usize)) -> nat {
    ((if a.0 >= b.0 {
        a.0 - b.0
    } else {
        b.0 - a.0
    }) + (if a.1 >= b.1 {
        a.1 - b.1
    } else {
        b.1 - a.1
    })) as nat * (MOVE_COST as nat)
}

/// The estimate measures grid steps: it is symmetric, zero only from a
/// cell to itself, `MOVE_COST` between neighbours, and adds up along any
/// cell `c` lying between `a` and `b` in both coordinates.
pub proof fn law_manhattan_steps(a: (usize, usize), b: (usize, usize), c: (usize, usize))
    ensures
        manhattan_cost(a, b) == manhattan_cost(b, a),
        manhattan_cost(a, b) == 0 <==> a == b,
        adjacent(a, b) ==> manhattan_cost(a, b) == MOVE_COST,
        (a.0 <= c.0 <= b.0 || b.0 <= c.0 <= a.0) && (a.1 <= c.1 <= b.1 || b.1 <= c.1 <= a.1)
            ==> manhattan_cost(a, b) == manhattan_cost(a, c) + manhattan_cost(c, b),
{
}

/// The recorded predecessor of cell `v`.
pub open spec fn parent_of(pf: PathFinder, v: (usize, usize), w: usize) -> Option<(usize, usize)> {
    pf.came_from@[cell_index(v, w)]
}

/// The priority of cell `p`: its best cost plus the estimate to `end`,
/// capped at `u32::MAX`.
pub open spec fn priority_of(pf: PathFinder, p: (usize, usize), end: (usize, usize), w: usize) -> nat {
    let v: nat = dist(pf, p, w) as nat + manhattan_cost(p, end);
    if v <= u32::MAX {
        v
    } else {
        u32::MAX as nat
    }
}

/// Every queued cell is on the grid, is the start or has a predecessor,
/// and is queued at no less than its priority.
pub open spec fn astar_entries(
    map: WorldMap,
    pf: PathFinder,
    q: Seq<QueueEntry>,
    start: (usize, usize),
    end: (usize, usize),
) -> bool {
    forall|k: int|
        0 <= k < q.len() ==> on_grid((#[trigger] q[k]).1, map.width, map.height) && (q[k].1 == start
            || parent_of(pf, q[k].1, map.width) is Some) && q[k].0 >= priority_of(
            pf,
            q[k].1,
            end,
            map.width,
        )
}

/// A predecessor is a settled neighbour one step cheaper.
pub open spec fn astar_parents(map: WorldMap, pf: PathFinder) -> bool {
    forall|v: (usize, usize)|
        on_grid(v, map.width, map.height) && (#[trigger] parent_of(pf, v, map.width)) is Some ==> {
            let u = parent_of(pf, v, map.width)->0;
            &&& on_grid(u, map.width, map.height)
            &&& adjacent(u, v)
            &&& reached(pf, u, map.width)
            &&& dist(pf, v, map.width) == dist(pf, u, map.width) + step_between(map, u, v)
        }
}

/// Every settled cell is the start or has a predecessor.
pub open spec fn astar_settled(map: WorldMap, pf: PathFinder, start: (usize, usize)) -> bool {
    forall|v: (usize, usize)|
        on_grid(v, map.width, map.height) && #[trigger] reached(pf, v, map.width) ==> v == start
            || parent_of(pf, v, map.width) is Some
}

/// Every cell with a cost that is not settled is queued at its priority.
pub open spec fn astar_pending(map: WorldMap, pf: PathFinder, q: Seq<QueueEntry>, end: (usize, usize)) -> bool {
    forall|p: (usize, usize)|
        on_grid(p, map.width, map.height) && #[trigger] dist(pf, p, map.width) < u32::MAX && !reached(
            pf,
            p,
            map.width,
        ) ==> queued(q, priority_of(pf, p, end, map.width) as u32, p)
}

/// Until the start is settled, the queue holds the start alone.
pub open spec fn start_status(
    map: WorldMap,
    pf: PathFinder,
    q: Seq<QueueEntry>,
    start: (usize, usize),
    end: (usize, usize),
) -> bool {
    !reached(pf, start, map.width) ==> q == seq![(priority_of(pf, start, end, map.width) as u32, start)]
}

/// A settled cell costs no more than any walk to it from the start whose
/// cost plus estimate stays below `u32::MAX`.
pub open spec fn settled_optimal(map: WorldMap, pf: PathFinder, start: (usize, usize), end: (usize, usize)) -> bool {
    forall|u: (usize, usize), wk: Seq<(usize, usize)>|
        #![trigger reached(pf, u, map.width), is_walk(map, wk, start, u)]
        on_grid(u, map.width, map.height) && reached(pf, u, map.width) && is_walk(map, wk, start, u)
            && walk_cost(map, wk) + manhattan_cost(u, end) < u32::MAX ==> dist(pf, u, map.width)
            <= walk_cost(map, wk)
}

/// A neighbour `v` of `u` is settled, or costs at most one step past `u`
/// when that step is affordable.
pub open spec fn step_closed(map: WorldMap, pf: PathFinder, u: (usize, usize), v: (usize, usize)) -> bool {
    dist(pf, u, map.width) + step_between(map, u, v) < u32::MAX ==> reached(pf, v, map.width) || dist(
        pf,
        v,
        map.width,
    ) <= dist(pf, u, map.width) + step_between(map, u, v)
}

/// Every settled cell but `skip` has all its neighbours step-closed.
pub open spec fn astar_closed(map: WorldMap, pf: PathFinder, skip: Option<(usize, usize)>) -> bool {
    forall|u: (usize, usize), v: (usize, usize)|
        #![trigger reached(pf, u, map.width), dist(pf, v, map.width)]
        on_grid(u, map.width, map.height) && reached(pf, u, map.width) && skip != Some(u) && on_grid(
            v,
            map.width,
            map.height,
        ) && adjacent(u, v) ==> step_closed(map, pf, u, v)
}

/// Everything the search keeps true between two steps.
pub open spec fn astar_inv(
    map: WorldMap,
    pf: PathFinder,
    q: Seq<QueueEntry>,
    start: (usize, usize),
    end: (usize, usize),
    skip: Option<(usize, usize)>,
) -> bool {
    &&& tables_fit(map, pf)
    &&& on_grid(start, map.width, map.height)
    &&& on_grid(end, map.width, map.height)
    &&& parent_of(pf, start, map.width) is None
    &&& dist(pf, start, map.width) == 0
    &&& !reached(pf, end, map.width)
    &&& astar_entries(map, pf, q, start, end)
    &&& astar_parents(map, pf)
    &&& astar_settled(map, pf, start)
    &&& astar_pending(map, pf, q, end)
    &&& astar_closed(map, pf, skip)
    &&& start_status(map, pf, q, start, end)
    &&& settled_optimal(map, pf, start, end)
}

impl AStar {
    /// A cheapest path of cells from `start` to `end`, each next to the one
    /// before. A step costs `MOVE_COST` plus the height difference in units
    /// of `ELEVATION_PENALTY_STEP`. No path is found only when every walk
    /// from `start` to `end` costs `u32::MAX` or more; the settled region
    /// then holds the start (at cost zero) but not the end and is closed
    /// under every step that keeps the cost below `u32::MAX`.
    pub fn a_star(map: &WorldMap, path_finder: &mut PathFinder, start: (usize, usize), end: (usize, usize)) -> (r:
        Option<Vec<usize>>)
        requires
            tables_fit(*map, *old(path_finder)),
            on_grid(start, map.width, map.height),
            on_grid(end, map.width, map.height),
            (map.width + map.height - 2) * 10 <= u32::MAX,
        ensures
            tables_fit(*map, *final(path_finder)),
            match r {
                Some(path) => {
                    &&& grid_path(path@, start, end, map.width, map.height)
                    &&& walk_cost(*map, path_cells(path@, map.width)) == dist(*final(path_finder), end, map.width)
                    &&& forall|wk: Seq<(usize, usize)>|
                        is_walk(*map, wk, start, end) && walk_cost(*map, wk) < u32::MAX ==> walk_cost(
                            *map,
                            path_cells(path@, map.width),
                        ) <= #[trigger] walk_cost(*map, wk)
                },
                None => {
                    &&& reached(*final(path_finder), start, map.width)
                    &&& dist(*final(path_finder), start, map.width) == 0
                    &&& forall|wk: Seq<(usize, usize)>|
                        is_walk(*map, wk, start, end) ==> #[trigger] walk_cost(*map, wk) >= u32::MAX
                    &&& !reached(*final(path_finder), end, map.width)
                    &&& forall|u: (usize, usize), v: (usize, usize)|
                        #![trigger reached(*final(path_finder), u, map.width), reached(*final(path_finder), v, map.width)]
                        on_grid(u, map.width, map.height) && reached(*final(path_finder), u, map.width)
                            && on_grid(v, map.width, map.height) && adjacent(u, v) && dist(
                            *final(path_finder),
                            u,
                            map.width,
                        ) + step_between(*map, u, v) < u32::MAX ==> reached(
                            *final(path_finder),
                            v,
                            map.width,
                        )
                },
            },
    {
        let w = map.width;
        let h = map.height;
        let mut open_set = MinQueue::new();
        proof {
            lemma_on_grid_index(*map, *path_finder, start);
        }
        path_finder.new_generation(start, w);
        let start_idx: usize = PathFinder::point_to_idx(start, w);
        let start_f = Self::heuristic(start, end);
        path_finder.f_score.set(start_idx, start_f);
        open_set.push((start_f, start));
        proof {
            assert(open_set.view() =~= seq![(manhattan_cost(start, end) as u32, start)]);
            lemma_astar_start(*map, *path_finder, open_set.view(), start, end);
        }
        loop
            invariant
                w == map.width,
                h == map.height,
                (map.width + map.height - 2) * 10 <= u32::MAX,
                astar_inv(*map, *path_finder, open_set.view(), start, end, None),
            ensures
                open_set.view().len() == 0,
                astar_inv(*map, *path_finder, open_set.view(), start, end, None),
            decreases 5 * score_total(path_finder.g_score@) + open_set.view().len(),
        {
            let ghost q0 = open_set.view();
            let ghost pf0 = *path_finder;
            let popped = open_set.pop();
            match popped {
                None => {
                    break;
                },
                Some(entry) => {
                    let current = entry.1;
                    let ghost k = choose|k: int|
                        0 <= k < q0.len() && popped == Some(#[trigger] q0[k]) && open_set.view()
                            == q0.remove(k) && forall|j: int|
                            0 <= j < q0.len() ==> entry_le(q0[k], #[trigger] q0[j]);
                    proof {
                        assert(on_grid(q0[k].1, w, h));
                        lemma_on_grid_index(*map, *path_finder, current);
                    }
                    if current.0 == end.0 && current.1 == end.1 {
                        proof {
                            lemma_chain_ready(*map, *path_finder, q0, k, start, end);
                            assert forall|wk: Seq<(usize, usize)>|
                                is_walk(*map, wk, start, end) && walk_cost(*map, wk)
                                    < u32::MAX implies dist(*path_finder, end, w) <= #[trigger] walk_cost(
                                *map,
                                wk,
                            ) by {
                                assert(manhattan_cost(end, end) == 0);
                                lemma_pop_optimal(*map, *path_finder, q0, k, start, end, wk);
                            }
                        }
                        let path = Self::reconstruct_path(
                            &path_finder.came_from,
                            end,
                            w,
                            Ghost(*map),
                            Ghost(*path_finder),
                            Ghost(start),
                        );
                        return Some(path);
                    }
                    let current_idx = PathFinder::point_to_idx(current, w);
                    if path_finder.visited[current_idx] {
                        proof {
                            lemma_astar_pop_settled(*map, *path_finder, q0, k, start, end);
                        }
                        continue;
                    }
                    proof {
                        assert forall|wk: Seq<(usize, usize)>|
                            is_walk(*map, wk, start, current) && walk_cost(*map, wk) + manhattan_cost(
                                current,
                                end,
                            ) < u32::MAX implies dist(pf0, current, w) <= #[trigger] walk_cost(
                            *map,
                            wk,
                        ) by {
                            lemma_pop_optimal(*map, pf0, q0, k, start, end, wk);
                        }
                    }
                    path_finder.visited.set(current_idx, true);
                    proof {
                        lemma_astar_settle(*map, pf0, *path_finder, q0, k, start, end);
                    }
                    let neighbors = PathFinder::neighbors(current, w, h);
                    let ghost m0 = 5 * score_total(pf0.g_score@) + q0.len();
                    let mut j: usize = 0;
                    while j < neighbors.len()
                        invariant
                            w == map.width,
                            h == map.height,
                            (map.width + map.height - 2) * 10 <= u32::MAX,
                            neighbors@ == grid_neighbors(current, w, h),
                            j <= neighbors@.len(),
                            on_grid(current, w, h),
                            current != end,
                            current_idx == cell_index(current, w),
                            reached(*path_finder, current, w),
                            reached(*path_finder, start, w),
                            astar_inv(*map, *path_finder, open_set.view(), start, end, Some(current)),
                            forall|i: int|
                                0 <= i < j ==> #[trigger] step_closed(
                                    *map,
                                    *path_finder,
                                    current,
                                    neighbors@[i],
                                ),
                            5 * score_total(path_finder.g_score@) + open_set.view().len() < m0,
                        decreases neighbors@.len() - j,
                    {
                        let neighbor = neighbors[j];
                        proof {
                            crate::services::algorithms::grid::lemma_listed_adjacent(
                                current,
                                w,
                                h,
                                j as int,
                            );
                            lemma_on_grid_index(*map, *path_finder, neighbor);
                        }
                        let neighbor_idx = PathFinder::point_to_idx(neighbor, w);
                        proof {
                            lemma_on_grid_index(*map, *path_finder, current);
                        }
                        if !path_finder.visited[neighbor_idx] {
                            let step = move_cost(
                                map.terrain[current_idx].elevation_val,
                                map.terrain[neighbor_idx].elevation_val,
                            );
                            let tentative_g_score: u32 = path_finder.g_score[current_idx].saturating_add(
                                step,
                            );
                            if tentative_g_score < path_finder.g_score[neighbor_idx] {
                                let ghost pf1 = *path_finder;
                                let ghost q1 = open_set.view();
                                path_finder.came_from.set(neighbor_idx, Some(current));
                                path_finder.g_score.set(neighbor_idx, tentative_g_score);
                                let h_score: u32 = Self::heuristic(neighbor, end);
                                let f_score: u32 = tentative_g_score.saturating_add(h_score);
                                path_finder.f_score.set(neighbor_idx, f_score);
                                open_set.push((f_score, neighbor));
                                proof {
                                    lemma_score_total_update(
                                        pf1.g_score@,
                                        neighbor_idx as int,
                                        tentative_g_score,
                                    );
                                    lemma_astar_relax(
                                        *map,
                                        pf1,
                                        *path_finder,
                                        q1,
                                        f_score,
                                        start,
                                        end,
                                        current,
                                        neighbor,
                                        tentative_g_score,
                                    );
                                    assert forall|i: int| 0 <= i < j + 1 implies #[trigger] step_closed(
                                        *map,
                                        *path_finder,
                                        current,
                                        neighbors@[i],
                                    ) by {
                                        if i < j {
                                            assert(step_closed(*map, pf1, current, neighbors@[i]));
                                            crate::services::algorithms::grid::lemma_listed_adjacent(
                                                current,
                                                w,
                                                h,
                                                i,
                                            );
                                        }
                                    }
                                }
                            } else {
                                proof {
                                    assert(step_closed(*map, *path_finder, current, neighbor));
                                }
                            }
                        } else {
                            proof {
                                assert(step_closed(*map, *path_finder, current, neighbor));
                            }
                        }
                        j = j + 1;
                    }
                    proof {
                        lemma_astar_close_current(*map, *path_finder, open_set.view(), start, end, current, neighbors@);
                    }
                },
            }
        }
        proof {
            lemma_astar_end(*map, *path_finder, open_set.view(), start, end);
        }
        None
    }

    /// The Manhattan distance from `a` to `b`, in steps of `MOVE_COST`.
    pub fn heuristic(a: (usize, usize), b: (usize, usize)) -> (c: u32)
        requires
            manhattan_cost(a, b) <= u32::MAX,
        ensures
            c == manhattan_cost(a, b),
    {
        let dx: usize = if a.0 >= b.0 {
            a.0 - b.0
        } else {
            b.0 - a.0
        };
        let dy: usize = if a.1 >= b.1 {
            a.1 - b.1
        } else {
            b.1 - a.1
        };
        ((dx as u32) + (dy as u32)) * MOVE_COST
    }

    /// Follows the predecessors back from `end` to the start and lists the
    /// cells from the start on.
    fn reconstruct_path(
        came_from: &Vec<Option<(usize, usize)>>,
        end: (usize, usize),
        width: usize,
        Ghost(map): Ghost<WorldMap>,
        Ghost(pf): Ghost<PathFinder>,
        Ghost(start): Ghost<(usize, usize)>,
    ) -> (path: Vec<usize>)
        requires
            came_from@ == pf.came_from@,
            width == map.width,
            tables_fit(map, pf),
            on_grid(start, map.width, map.height),
            on_grid(end, map.width, map.height),
            parent_of(pf, start, width) is None,
            end == start || parent_of(pf, end, width) is Some,
            astar_parents(map, pf),
            astar_settled(map, pf, start),
            dist(pf, start, width) == 0,
        ensures
            grid_path(path@, start, end, map.width, map.height),
            walk_cost(map, path_cells(path@, width)) == dist(pf, end, width),
    {
        let h = Ghost(map.height);
        proof {
            lemma_on_grid_index(map, pf, end);
            lemma_cell_at_index(end, width, map.height);
        }
        let mut back: Vec<usize> = Vec::new();
        back.push(PathFinder::point_to_idx(end, width));
        let mut current = end;
        let ghost mut fwd: Seq<(usize, usize)> = seq![end];
        loop
            invariant
                came_from@ == pf.came_from@,
                width == map.width,
                h@ == map.height,
                tables_fit(map, pf),
                on_grid(start, width, h@),
                on_grid(current, width, h@),
                parent_of(pf, start, width) is None,
                current == start || parent_of(pf, current, width) is Some,
                astar_parents(map, pf),
                astar_settled(map, pf, start),
                back@.len() > 0,
                back@[0] == cell_index(end, width),
                back@.last() == cell_index(current, width),
                forall|i: int|
                    0 <= i < back@.len() ==> on_grid(cell_at(#[trigger] back@[i] as int, width), width, h@),
                forall|i: int|
                    0 <= i < back@.len() ==> #[trigger] cell_index(cell_at(back@[i] as int, width), width)
                        == back@[i],
                forall|i: int|
                    0 <= i < back@.len() - 1 ==> adjacent(
                        cell_at(#[trigger] back@[i + 1] as int, width),
                        cell_at(back@[i] as int, width),
                    ),
                dist(pf, start, width) == 0,
                fwd.len() == back@.len(),
                fwd[0] == current,
                forall|i: int| 0 <= i < fwd.len() ==> #[trigger] fwd[i] == cell_at(back@[back@.len() - 1 - i] as int, width),
                dist(pf, end, width) == dist(pf, current, width) + walk_cost(map, fwd),
            ensures
                fwd.len() == back@.len(),
                forall|i: int| 0 <= i < fwd.len() ==> #[trigger] fwd[i] == cell_at(back@[back@.len() - 1 - i] as int, width),
                dist(pf, end, width) == walk_cost(map, fwd),
                current == start,
                back@.len() > 0,
                back@[0] == cell_index(end, width),
                back@.last() == cell_index(start, width),
                forall|i: int|
                    0 <= i < back@.len() ==> on_grid(cell_at(#[trigger] back@[i] as int, width), width, h@),
                forall|i: int|
                    0 <= i < back@.len() ==> #[trigger] cell_index(cell_at(back@[i] as int, width), width)
                        == back@[i],
                forall|i: int|
                    0 <= i < back@.len() - 1 ==> adjacent(
                        cell_at(#[trigger] back@[i + 1] as int, width),
                        cell_at(back@[i] as int, width),
                    ),
            decreases dist(pf, current, width),
        {
            proof {
                lemma_on_grid_index(map, pf, current);
            }
            let idx = PathFinder::point_to_idx(current, width);
            match came_from[idx] {
                None => {
                    break;
                },
                Some(prev) => {
                    proof {
                        assert(parent_of(pf, current, width) == Some(prev));
                        lemma_on_grid_index(map, pf, prev);
                        lemma_cell_at_index(prev, width, h@);
                        lemma_cell_at_index(current, width, h@);
                        assert(reached(pf, prev, width));
                    }
                    let ghost before = back@;
                    back.push(PathFinder::point_to_idx(prev, width));
                    proof {
                        assert(back@[before.len() - 1] == before.last());
                        assert forall|i: int| 0 <= i < back@.len() - 1 implies adjacent(
                            cell_at(#[trigger] back@[i + 1] as int, width),
                            cell_at(back@[i] as int, width),
                        ) by {
                            if i < before.len() - 1 {
                                assert(back@[i + 1] == before[i + 1]);
                                assert(back@[i] == before[i]);
                            }
                        }
                    }
                    proof {
                        let nf = seq![prev] + fwd;
                        assert(nf.drop_first() =~= fwd);
                        assert(nf[1] == current);
                        assert(back@.last() == cell_index(prev, width));
                        assert forall|i: int| 0 <= i < nf.len() implies #[trigger] nf[i] == cell_at(back@[back@.len() - 1 - i] as int, width) by {
                            if i > 0 {
                                assert(nf[i] == fwd[i - 1]);
                                assert(back@[back@.len() - 1 - i] == before[before.len() - 1 - (i - 1)]);
                            }
                        }
                        fwd = nf;
                    }
                    current = prev;
                },
            }
        }
        let mut path: Vec<usize> = Vec::new();
        let n = back.len();
        let mut i: usize = 0;
        while i < n
            invariant
                n == back@.len(),
                i <= n,
                path@.len() == i,
                forall|k: int| 0 <= k < i ==> #[trigger] path@[k] == back@[n - 1 - k],
            decreases n - i,
        {
            path.push(back[n - 1 - i]);
            i = i + 1;
        }
        proof {
            assert forall|k: int| 0 <= k < path@.len() - 1 implies adjacent(
                cell_at(#[trigger] path@[k] as int, width),
                cell_at(path@[k + 1] as int, width),
            ) by {
                assert(path@[k] == back@[n - 1 - k]);
                assert(path@[k + 1] == back@[n - 1 - (k + 1)]);
                assert(adjacent(
                    cell_at(back@[(n - 1 - (k + 1)) + 1] as int, width),
                    cell_at(back@[n - 1 - (k + 1)] as int, width),
                ));
            }
            assert forall|k: int| 0 <= k < path@.len() implies on_grid(
                cell_at(#[trigger] path@[k] as int, width),
                width,
                h@,
            ) by {
                assert(path@[k] == back@[n - 1 - k]);
            }
            assert forall|k: int| 0 <= k < path@.len() implies #[trigger] cell_index(
                cell_at(path@[k] as int, width),
                width,
            ) == path@[k] by {
                assert(path@[k] == back@[n - 1 - k]);
            }
            assert(path_cells(path@, width) =~= fwd) by {
                assert forall|k: int| 0 <= k < fwd.len() implies path_cells(path@, width)[k] == #[trigger] fwd[k] by {
                    assert(path@[k] == back@[n - 1 - k]);
                }
            }
        }
        path
    }
}

/// An on-grid cell is the cell of its own index.
proof fn lemma_cell_at_index(p: (usize, usize), w: usize, h: usize)
    requires
        on_grid(p, w, h),
    ensures
        cell_at(cell_index(p, w), w) == p,
{
    let i = cell_index(p, w);
    assert(i % (w as int) == p.0 && i / (w as int) == p.1) by (nonlinear_arith)
        requires
            i == p.1 * w + p.0,
            p.0 < w,
    ;
}


/// The state right after the start cell is queued satisfies the invariant.
proof fn lemma_astar_start(
    map: WorldMap,
    pf: PathFinder,
    q: Seq<QueueEntry>,
    start: (usize, usize),
    end: (usize, usize),
)
    requires
        tables_fit(map, pf),
        on_grid(start, map.width, map.height),
        on_grid(end, map.width, map.height),
        pf.g_score@ == Seq::new(
            pf.g_score@.len(),
            |i: int|
                if i == cell_index(start, map.width) {
                    0u32
                } else {
                    u32::MAX
                },
        ),
        forall|i: int| 0 <= i < pf.visited@.len() ==> !#[trigger] pf.visited@[i],
        forall|i: int| 0 <= i < pf.came_from@.len() ==> #[trigger] pf.came_from@[i] is None,
        manhattan_cost(start, end) <= u32::MAX,
        q == seq![(manhattan_cost(start, end) as u32, start)],
    ensures
        astar_inv(map, pf, q, start, end, None),
{
    let w = map.width;
    let h = map.height;
    lemma_on_grid_index(map, pf, start);
    lemma_on_grid_index(map, pf, end);
    assert forall|v: (usize, usize)| on_grid(v, w, h) implies (#[trigger] parent_of(pf, v, w)) is None by {
        lemma_on_grid_index(map, pf, v);
    }
    assert forall|v: (usize, usize)| on_grid(v, w, h) implies !#[trigger] reached(pf, v, w) by {
        lemma_on_grid_index(map, pf, v);
    }
    assert(dist(pf, start, w) == 0);
    assert(priority_of(pf, start, end, w) == manhattan_cost(start, end));
    assert(q[0] == (manhattan_cost(start, end) as u32, start));
    assert(astar_entries(map, pf, q, start, end));
    assert(astar_parents(map, pf));
    assert(astar_settled(map, pf, start));
    assert(astar_closed(map, pf, None));
    assert forall|p: (usize, usize)|
        on_grid(p, w, h) && #[trigger] dist(pf, p, w) < u32::MAX && !reached(pf, p, w) implies queued(
        q,
        priority_of(pf, p, end, w) as u32,
        p,
    ) by {
        lemma_on_grid_index(map, pf, p);
        if p != start {
            lemma_cell_index_injective(p, start, w, h);
        }
    }
}

/// When the end is popped, the predecessors lead from it back to the start.
proof fn lemma_chain_ready(
    map: WorldMap,
    pf: PathFinder,
    q0: Seq<QueueEntry>,
    k: int,
    start: (usize, usize),
    end: (usize, usize),
)
    requires
        astar_inv(map, pf, q0, start, end, None),
        0 <= k < q0.len(),
        q0[k].1 == end,
    ensures
        end == start || parent_of(pf, end, map.width) is Some,
{
    assert(on_grid(q0[k].1, map.width, map.height));
}

/// Popping a settled cell's entry keeps the queue's part of the invariant.
proof fn lemma_astar_pop_settled(
    map: WorldMap,
    pf: PathFinder,
    q0: Seq<QueueEntry>,
    k: int,
    start: (usize, usize),
    end: (usize, usize),
)
    requires
        astar_entries(map, pf, q0, start, end),
        astar_pending(map, pf, q0, end),
        start_status(map, pf, q0, start, end),
        0 <= k < q0.len(),
        reached(pf, q0[k].1, map.width),
    ensures
        astar_entries(map, pf, q0.remove(k), start, end),
        astar_pending(map, pf, q0.remove(k), end),
        start_status(map, pf, q0.remove(k), start, end),
        reached(pf, start, map.width),
{
    let w = map.width;
    let h = map.height;
    let q = q0.remove(k);
    if !reached(pf, start, w) {
        assert(q0[0].1 == start);
    }
    assert forall|j: int| 0 <= j < q.len() implies on_grid((#[trigger] q[j]).1, w, h) && (q[j].1
        == start || parent_of(pf, q[j].1, w) is Some) && q[j].0 >= priority_of(pf, q[j].1, end, w) by {
        if j < k {
            assert(q[j] == q0[j]);
        } else {
            assert(q[j] == q0[j + 1]);
        }
    }
    assert forall|p: (usize, usize)|
        on_grid(p, w, h) && #[trigger] dist(pf, p, w) < u32::MAX && !reached(pf, p, w) implies queued(
        q,
        priority_of(pf, p, end, w) as u32,
        p,
    ) by {
        crate::services::algorithms::search::lemma_queued_after_remove(
            q0,
            k,
            priority_of(pf, p, end, w) as u32,
            p,
        );
    }
}

/// The estimate to `end` drops by at most one step's cost per step.
proof fn lemma_estimate_step(map: WorldMap, a: (usize, usize), b: (usize, usize), end: (usize, usize))
    requires
        adjacent(a, b),
    ensures
        manhattan_cost(a, end) <= step_between(map, a, b) + manhattan_cost(b, end),
{
    assert(step_between(map, a, b) >= MOVE_COST);
}

/// Along a walk, the estimate at its first cell is at most the walk's cost
/// plus the estimate at its last.
proof fn lemma_estimate_walk(map: WorldMap, wk: Seq<(usize, usize)>, end: (usize, usize))
    requires
        wk.len() > 0,
        forall|i: int| 0 <= i < wk.len() - 1 ==> adjacent(#[trigger] wk[i], wk[i + 1]),
    ensures
        manhattan_cost(wk[0], end) <= walk_cost(map, wk) + manhattan_cost(wk.last(), end),
    decreases wk.len(),
{
    if wk.len() > 1 {
        let df = wk.drop_first();
        assert forall|i: int| 0 <= i < df.len() - 1 implies adjacent(#[trigger] df[i], df[i + 1]) by {
            assert(df[i] == wk[i + 1] && df[i + 1] == wk[i + 2]);
        }
        lemma_estimate_walk(map, df, end);
        assert(adjacent(wk[0], wk[1]));
        lemma_estimate_step(map, wk[0], wk[1], end);
        assert(df[0] == wk[1]);
        assert(df.last() == wk.last());
    }
}

/// A walk from a settled cell to an unsettled one leaves the settled
/// cells somewhere: the first unsettled cell and the settled one before it.
proof fn lemma_first_unsettled(pf: PathFinder, wk: Seq<(usize, usize)>, w: usize) -> (i: int)
    requires
        wk.len() > 0,
        reached(pf, wk[0], w),
        !reached(pf, wk.last(), w),
    ensures
        1 <= i < wk.len(),
        reached(pf, wk[i - 1], w),
        !reached(pf, wk[i], w),
    decreases wk.len(),
{
    if !reached(pf, wk[1], w) {
        1
    } else {
        let df = wk.drop_first();
        assert(df[0] == wk[1]);
        assert(df.last() == wk.last());
        let j = lemma_first_unsettled(pf, df, w);
        assert(df[j - 1] == wk[j] && df[j] == wk[j + 1]);
        j + 1
    }
}

/// The popped unsettled cell costs no more than any walk to it from the
/// start whose cost plus estimate stays below `u32::MAX`.
#[verifier::spinoff_prover]
#[verifier::rlimit(40)]
proof fn lemma_pop_optimal(
    map: WorldMap,
    pf: PathFinder,
    q0: Seq<QueueEntry>,
    k: int,
    start: (usize, usize),
    end: (usize, usize),
    wk: Seq<(usize, usize)>,
)
    requires
        astar_inv(map, pf, q0, start, end, None),
        0 <= k < q0.len(),
        !reached(pf, q0[k].1, map.width),
        forall|j: int| 0 <= j < q0.len() ==> entry_le(q0[k], #[trigger] q0[j]),
        is_walk(map, wk, start, q0[k].1),
        walk_cost(map, wk) + manhattan_cost(q0[k].1, end) < u32::MAX,
    ensures
        dist(pf, q0[k].1, map.width) <= walk_cost(map, wk),
{
    let w = map.width;
    let h = map.height;
    let u = q0[k].1;
    let c = q0[k].0;
    if u != start {
        if !reached(pf, start, w) {
            assert(q0[0].1 == start);
        }
        let i = lemma_first_unsettled(pf, wk, w);
        let p = wk[i - 1];
        let x = wk[i];
        let prefix = wk.take(i);
        lemma_walk_take(map, wk, start, u, i - 1);
        lemma_walk_split(map, wk, i - 1);
        lemma_walk_skip(map, wk, start, u, i);
        let rest = wk.skip(i - 1);
        assert(rest.len() > 1);
        assert(rest[0] == p && rest[1] == x);
        assert(rest.drop_first() =~= wk.skip(i));
        assert(walk_cost(map, rest) == step_between(map, p, x) + walk_cost(map, wk.skip(i)));
        lemma_estimate_walk(map, wk.skip(i), end);
        assert(wk.skip(i)[0] == x);
        assert(wk.skip(i).last() == u);
        assert(adjacent(wk[i - 1], wk[i - 1 + 1]));
        lemma_estimate_step(map, p, x, end);
        assert(on_grid(wk[i - 1], w, h) && on_grid(wk[i], w, h));
        assert(walk_cost(map, prefix) + manhattan_cost(p, end) < u32::MAX);
        assert(dist(pf, p, w) <= walk_cost(map, prefix));
        assert(step_closed(map, pf, p, x));
        assert(dist(pf, x, w) <= dist(pf, p, w) + step_between(map, p, x));
        assert(dist(pf, x, w) < u32::MAX);
        assert(queued(q0, priority_of(pf, x, end, w) as u32, x));
        let j = choose|j: int| 0 <= j < q0.len() && q0[j] == (priority_of(pf, x, end, w) as u32, x);
        assert(entry_le(q0[k], q0[j]));
        assert(priority_of(pf, x, end, w) == dist(pf, x, w) + manhattan_cost(x, end));
        assert(c <= dist(pf, x, w) + manhattan_cost(x, end));
        assert(on_grid(q0[k].1, w, h));
        assert(c >= priority_of(pf, u, end, w));
    }
}

/// The facts about a settle step that every part of its proof uses.
pub open spec fn astar_settle_step(
    map: WorldMap,
    pf0: PathFinder,
    pf: PathFinder,
    q0: Seq<QueueEntry>,
    k: int,
    end: (usize, usize),
) -> bool {
    &&& tables_fit(map, pf0)
    &&& 0 <= k < q0.len()
    &&& on_grid(q0[k].1, map.width, map.height)
    &&& !reached(pf0, q0[k].1, map.width)
    &&& q0[k].1 != end
    &&& pf.g_score == pf0.g_score
    &&& pf.f_score == pf0.f_score
    &&& pf.came_from == pf0.came_from
    &&& pf.visited@ == pf0.visited@.update(cell_index(q0[k].1, map.width), true)
}

/// After settling `u`, the settled cells are the old ones and `u`.
proof fn lemma_astar_settle_reached(
    map: WorldMap,
    pf0: PathFinder,
    pf: PathFinder,
    q0: Seq<QueueEntry>,
    k: int,
    end: (usize, usize),
)
    requires
        astar_settle_step(map, pf0, pf, q0, k, end),
    ensures
        tables_fit(map, pf),
        forall|p: (usize, usize)|
            on_grid(p, map.width, map.height) ==> #[trigger] reached(pf, p, map.width) == (reached(
                pf0,
                p,
                map.width,
            ) || p == q0[k].1),
        forall|p: (usize, usize)| #[trigger] dist(pf, p, map.width) == dist(pf0, p, map.width),
        forall|p: (usize, usize)| #[trigger] parent_of(pf, p, map.width) == parent_of(pf0, p, map.width),
        forall|p: (usize, usize)|
            #[trigger] priority_of(pf, p, end, map.width) == priority_of(pf0, p, end, map.width),
{
    let w = map.width;
    let h = map.height;
    let u = q0[k].1;
    lemma_on_grid_index(map, pf0, u);
    assert forall|p: (usize, usize)| on_grid(p, w, h) implies #[trigger] reached(pf, p, w) == (reached(
        pf0,
        p,
        w,
    ) || p == u) by {
        lemma_on_grid_index(map, pf0, p);
        if p != u {
            lemma_cell_index_injective(p, u, w, h);
        }
    }
}

/// Settling keeps the queue's part of the invariant.
proof fn lemma_astar_settle_queue(
    map: WorldMap,
    pf0: PathFinder,
    pf: PathFinder,
    q0: Seq<QueueEntry>,
    k: int,
    start: (usize, usize),
    end: (usize, usize),
)
    requires
        astar_settle_step(map, pf0, pf, q0, k, end),
        astar_entries(map, pf0, q0, start, end),
        astar_pending(map, pf0, q0, end),
        start_status(map, pf0, q0, start, end),
        on_grid(start, map.width, map.height),
    ensures
        astar_entries(map, pf, q0.remove(k), start, end),
        astar_pending(map, pf, q0.remove(k), end),
        start_status(map, pf, q0.remove(k), start, end),
        reached(pf, start, map.width),
{
    let w = map.width;
    let h = map.height;
    let u = q0[k].1;
    let q = q0.remove(k);
    lemma_astar_settle_reached(map, pf0, pf, q0, k, end);
    if !reached(pf0, start, w) {
        assert(q0[0].1 == start);
        assert(u == start);
    }
    assert(reached(pf, start, w));
    assert forall|j: int| 0 <= j < q.len() implies on_grid((#[trigger] q[j]).1, w, h) && (q[j].1
        == start || parent_of(pf, q[j].1, w) is Some) && q[j].0 >= priority_of(pf, q[j].1, end, w) by {
        if j < k {
            assert(q[j] == q0[j]);
        } else {
            assert(q[j] == q0[j + 1]);
        }
    }
    assert forall|p: (usize, usize)|
        on_grid(p, w, h) && #[trigger] dist(pf, p, w) < u32::MAX && !reached(pf, p, w) implies queued(
        q,
        priority_of(pf, p, end, w) as u32,
        p,
    ) by {
        assert(dist(pf0, p, w) == dist(pf, p, w));
        assert(!reached(pf0, p, w));
        crate::services::algorithms::search::lemma_queued_after_remove(
            q0,
            k,
            priority_of(pf, p, end, w) as u32,
            p,
        );
    }
}

/// Settling keeps the predecessor, closure and optimality parts of the
/// invariant.
proof fn lemma_astar_settle_rest(
    map: WorldMap,
    pf0: PathFinder,
    pf: PathFinder,
    q0: Seq<QueueEntry>,
    k: int,
    start: (usize, usize),
    end: (usize, usize),
)
    requires
        astar_settle_step(map, pf0, pf, q0, k, end),
        astar_entries(map, pf0, q0, start, end),
        astar_parents(map, pf0),
        astar_settled(map, pf0, start),
        astar_closed(map, pf0, None),
        settled_optimal(map, pf0, start, end),
        forall|wk: Seq<(usize, usize)>|
            is_walk(map, wk, start, q0[k].1) && walk_cost(map, wk) + manhattan_cost(q0[k].1, end)
                < u32::MAX ==> dist(pf0, q0[k].1, map.width) <= #[trigger] walk_cost(map, wk),
        on_grid(end, map.width, map.height),
        !reached(pf0, end, map.width),
    ensures
        astar_parents(map, pf),
        astar_settled(map, pf, start),
        astar_closed(map, pf, Some(q0[k].1)),
        settled_optimal(map, pf, start, end),
        !reached(pf, end, map.width),
        reached(pf, q0[k].1, map.width),
{
    let w = map.width;
    let h = map.height;
    let u = q0[k].1;
    lemma_astar_settle_reached(map, pf0, pf, q0, k, end);
    assert(reached(pf, end, w) == (reached(pf0, end, w) || end == u));
    assert forall|v: (usize, usize)|
        on_grid(v, w, h) && (#[trigger] parent_of(pf, v, w)) is Some implies {
        let x = parent_of(pf, v, w)->0;
        &&& on_grid(x, w, h)
        &&& adjacent(x, v)
        &&& reached(pf, x, w)
        &&& dist(pf, v, w) == dist(pf, x, w) + step_between(map, x, v)
    } by {
        let x = parent_of(pf, v, w)->0;
        assert(parent_of(pf0, v, w) is Some);
        assert(reached(pf, x, w) == (reached(pf0, x, w) || x == u));
        assert(dist(pf, v, w) == dist(pf0, v, w));
        assert(dist(pf, x, w) == dist(pf0, x, w));
    }
    assert forall|v: (usize, usize)| on_grid(v, w, h) && #[trigger] reached(pf, v, w) implies v == start
        || parent_of(pf, v, w) is Some by {
        assert(reached(pf, v, w) == (reached(pf0, v, w) || v == u));
        assert(parent_of(pf, v, w) == parent_of(pf0, v, w));
        if v == u {
            assert(q0[k].1 == start || parent_of(pf0, q0[k].1, w) is Some);
        }
    }
    assert forall|x: (usize, usize), v: (usize, usize)|
        #![trigger reached(pf, x, w), dist(pf, v, w)]
        on_grid(x, w, h) && reached(pf, x, w) && Some(u) != Some(x) && on_grid(v, w, h) && adjacent(
            x,
            v,
        ) implies step_closed(map, pf, x, v) by {
        assert(reached(pf, x, w) == (reached(pf0, x, w) || x == u));
        assert(reached(pf0, x, w));
        assert(dist(pf0, v, w) == dist(pf, v, w));
        assert(step_closed(map, pf0, x, v));
        assert(reached(pf, v, w) == (reached(pf0, v, w) || v == u));
        assert(dist(pf, x, w) == dist(pf0, x, w));
    }
    assert forall|x: (usize, usize), wk: Seq<(usize, usize)>|
        #![trigger reached(pf, x, w), is_walk(map, wk, start, x)]
        on_grid(x, w, h) && reached(pf, x, w) && is_walk(map, wk, start, x) && walk_cost(map, wk)
            + manhattan_cost(x, end) < u32::MAX implies dist(pf, x, w) <= walk_cost(map, wk) by {
        assert(reached(pf, x, w) == (reached(pf0, x, w) || x == u));
        assert(dist(pf, x, w) == dist(pf0, x, w));
        if x != u {
            assert(reached(pf0, x, w));
        }
    }
}

/// Settling the popped cell keeps the invariant, with the cell itself not
/// yet closed.
proof fn lemma_astar_settle(
    map: WorldMap,
    pf0: PathFinder,
    pf: PathFinder,
    q0: Seq<QueueEntry>,
    k: int,
    start: (usize, usize),
    end: (usize, usize),
)
    requires
        astar_inv(map, pf0, q0, start, end, None),
        0 <= k < q0.len(),
        !reached(pf0, q0[k].1, map.width),
        q0[k].1 != end,
        forall|wk: Seq<(usize, usize)>|
            is_walk(map, wk, start, q0[k].1) && walk_cost(map, wk) + manhattan_cost(q0[k].1, end)
                < u32::MAX ==> dist(pf0, q0[k].1, map.width) <= #[trigger] walk_cost(map, wk),
        pf.g_score == pf0.g_score,
        pf.f_score == pf0.f_score,
        pf.came_from == pf0.came_from,
        pf.visited@ == pf0.visited@.update(cell_index(q0[k].1, map.width), true),
    ensures
        astar_inv(map, pf, q0.remove(k), start, end, Some(q0[k].1)),
        reached(pf, q0[k].1, map.width),
        reached(pf, start, map.width),
{
    assert(on_grid(q0[k].1, map.width, map.height));
    assert(astar_settle_step(map, pf0, pf, q0, k, end));
    lemma_astar_settle_reached(map, pf0, pf, q0, k, end);
    lemma_astar_settle_queue(map, pf0, pf, q0, k, start, end);
    lemma_astar_settle_rest(map, pf0, pf, q0, k, start, end);
    assert(dist(pf, start, map.width) == dist(pf0, start, map.width));
    assert(parent_of(pf, start, map.width) == parent_of(pf0, start, map.width));
}

/// Giving an unsettled neighbour the current cell as predecessor at one
/// step's cost keeps the invariant.
proof fn lemma_astar_relax(
    map: WorldMap,
    pf1: PathFinder,
    pf: PathFinder,
    q1: Seq<QueueEntry>,
    f: u32,
    start: (usize, usize),
    end: (usize, usize),
    u: (usize, usize),
    v: (usize, usize),
    t: u32,
)
    requires
        astar_inv(map, pf1, q1, start, end, Some(u)),
        on_grid(u, map.width, map.height),
        reached(pf1, u, map.width),
        on_grid(v, map.width, map.height),
        adjacent(u, v),
        !reached(pf1, v, map.width),
        t == dist(pf1, u, map.width) + step_between(map, u, v),
        t < dist(pf1, v, map.width),
        pf.visited == pf1.visited,
        pf.f_score@.len() == pf1.f_score@.len(),
        pf.came_from@ == pf1.came_from@.update(cell_index(v, map.width), Some(u)),
        pf.g_score@ == pf1.g_score@.update(cell_index(v, map.width), t),
        reached(pf1, start, map.width),
        f as nat == (if t as nat + manhattan_cost(v, end) <= u32::MAX {
            t as nat + manhattan_cost(v, end)
        } else {
            u32::MAX as nat
        }),
    ensures
        astar_inv(map, pf, q1.push((f, v)), start, end, Some(u)),
        reached(pf, u, map.width),
        step_closed(map, pf, u, v),
        forall|x: (usize, usize)|
            on_grid(x, map.width, map.height) && step_closed(map, pf1, u, x) ==> #[trigger] step_closed(
                map,
                pf,
                u,
                x,
            ),
{
    let w = map.width;
    let h = map.height;
    let q = q1.push((f, v));
    lemma_on_grid_index(map, pf1, v);
    assert forall|p: (usize, usize)| on_grid(p, w, h) implies #[trigger] dist(pf, p, w) == (if p == v {
        t
    } else {
        dist(pf1, p, w)
    }) by {
        lemma_on_grid_index(map, pf1, p);
        if p != v {
            lemma_cell_index_injective(p, v, w, h);
        }
    }
    assert forall|p: (usize, usize)| on_grid(p, w, h) implies #[trigger] parent_of(pf, p, w) == (if p
        == v {
        Some(u)
    } else {
        parent_of(pf1, p, w)
    }) by {
        lemma_on_grid_index(map, pf1, p);
        if p != v {
            lemma_cell_index_injective(p, v, w, h);
        }
    }
    assert forall|p: (usize, usize)| on_grid(p, w, h) implies #[trigger] reached(pf, p, w) == reached(
        pf1,
        p,
        w,
    ) by {}
    assert(u != v);
    assert(dist(pf, u, w) == dist(pf1, u, w));
    assert(start != v);
    assert(dist(pf, start, w) == dist(pf1, start, w));
    assert(parent_of(pf, start, w) == parent_of(pf1, start, w));
    assert(reached(pf, end, w) == reached(pf1, end, w));
    assert forall|p: (usize, usize)| on_grid(p, w, h) implies #[trigger] priority_of(pf, p, end, w)
        <= priority_of(pf1, p, end, w) by {
        assert(dist(pf, p, w) <= dist(pf1, p, w));
    }
    assert forall|j: int| 0 <= j < q.len() implies on_grid((#[trigger] q[j]).1, w, h) && (q[j].1
        == start || parent_of(pf, q[j].1, w) is Some) && q[j].0 >= priority_of(pf, q[j].1, end, w) by {
        if j < q1.len() {
            assert(q[j] == q1[j]);
            assert(priority_of(pf, q1[j].1, end, w) <= priority_of(pf1, q1[j].1, end, w));
        } else {
            assert(q[j] == (f, v));
            assert(dist(pf, v, w) == t);
        }
    }
    assert forall|x: (usize, usize)|
        on_grid(x, w, h) && (#[trigger] parent_of(pf, x, w)) is Some implies {
        let y = parent_of(pf, x, w)->0;
        &&& on_grid(y, w, h)
        &&& adjacent(y, x)
        &&& reached(pf, y, w)
        &&& dist(pf, x, w) == dist(pf, y, w) + step_between(map, y, x)
    } by {
        if x != v {
            let y = parent_of(pf1, x, w)->0;
            assert(reached(pf1, y, w));
            assert(y != v);
            assert(dist(pf, y, w) == dist(pf1, y, w));
        }
    }
    assert forall|x: (usize, usize)| on_grid(x, w, h) && #[trigger] reached(pf, x, w) implies x == start
        || parent_of(pf, x, w) is Some by {
        assert(reached(pf1, x, w));
    }
    assert forall|p: (usize, usize)|
        on_grid(p, w, h) && #[trigger] dist(pf, p, w) < u32::MAX && !reached(pf, p, w) implies queued(
        q,
        priority_of(pf, p, end, w) as u32,
        p,
    ) by {
        if p == v {
            assert(dist(pf, v, w) == t);
            crate::services::algorithms::search::lemma_queued_after_push(
                q1,
                (f, v),
                priority_of(pf, p, end, w) as u32,
                p,
            );
        } else {
            assert(dist(pf1, p, w) < u32::MAX);
            assert(priority_of(pf, p, end, w) == priority_of(pf1, p, end, w));
            crate::services::algorithms::search::lemma_queued_after_push(
                q1,
                (f, v),
                priority_of(pf, p, end, w) as u32,
                p,
            );
        }
    }
    assert forall|x: (usize, usize), wk: Seq<(usize, usize)>|
        #![trigger reached(pf, x, w), is_walk(map, wk, start, x)]
        on_grid(x, w, h) && reached(pf, x, w) && is_walk(map, wk, start, x) && walk_cost(map, wk)
            + manhattan_cost(x, end) < u32::MAX implies dist(pf, x, w) <= walk_cost(map, wk) by {
        assert(reached(pf1, x, w));
        assert(x != v);
    }
    assert forall|x: (usize, usize), y: (usize, usize)|
        #![trigger reached(pf, x, w), dist(pf, y, w)]
        on_grid(x, w, h) && reached(pf, x, w) && Some(u) != Some(x) && on_grid(y, w, h) && adjacent(
            x,
            y,
        ) implies step_closed(map, pf, x, y) by {
        assert(reached(pf1, x, w));
        assert(step_closed(map, pf1, x, y));
        assert(x != v);
        assert(dist(pf, y, w) <= dist(pf1, y, w));
    }
    assert forall|x: (usize, usize)|
        on_grid(x, w, h) && step_closed(map, pf1, u, x) implies #[trigger] step_closed(map, pf, u, x) by {
        assert(dist(pf, x, w) <= dist(pf1, x, w));
    }
}

/// Once every neighbour of the current cell is handled, the cell is closed.
proof fn lemma_astar_close_current(
    map: WorldMap,
    pf: PathFinder,
    q: Seq<QueueEntry>,
    start: (usize, usize),
    end: (usize, usize),
    u: (usize, usize),
    nbrs: Seq<(usize, usize)>,
)
    requires
        astar_inv(map, pf, q, start, end, Some(u)),
        on_grid(u, map.width, map.height),
        nbrs == grid_neighbors(u, map.width, map.height),
        forall|i: int| 0 <= i < nbrs.len() ==> #[trigger] step_closed(map, pf, u, nbrs[i]),
    ensures
        astar_inv(map, pf, q, start, end, None),
{
    let w = map.width;
    let h = map.height;
    assert forall|x: (usize, usize), v: (usize, usize)|
        #![trigger reached(pf, x, w), dist(pf, v, w)]
        on_grid(x, w, h) && reached(pf, x, w) && None::<(usize, usize)> != Some(x) && on_grid(v, w, h)
            && adjacent(x, v) implies step_closed(map, pf, x, v) by {
        if x == u {
            lemma_adjacent_listed(u, v, w, h);
            let i = choose|i: int| 0 <= i < nbrs.len() && nbrs[i] == v;
            assert(step_closed(map, pf, u, nbrs[i]));
        } else {
            assert(Some(u) != Some(x));
        }
    }
}

/// With the queue empty, the start is settled and the settled region is
/// closed under every affordable step.
proof fn lemma_astar_end(
    map: WorldMap,
    pf: PathFinder,
    q: Seq<QueueEntry>,
    start: (usize, usize),
    end: (usize, usize),
)
    requires
        astar_inv(map, pf, q, start, end, None),
        q.len() == 0,
    ensures
        reached(pf, start, map.width),
        forall|u: (usize, usize), v: (usize, usize)|
            #![trigger reached(pf, u, map.width), reached(pf, v, map.width)]
            on_grid(u, map.width, map.height) && reached(pf, u, map.width) && on_grid(
                v,
                map.width,
                map.height,
            ) && adjacent(u, v) && dist(pf, u, map.width) + step_between(map, u, v) < u32::MAX
                ==> reached(pf, v, map.width),
        forall|wk: Seq<(usize, usize)>| is_walk(map, wk, start, end) ==> #[trigger] walk_cost(map, wk) >= u32::MAX,
{
    let w = map.width;
    let h = map.height;
    assert(dist(pf, start, w) < u32::MAX);
    if !reached(pf, start, w) {
        assert(queued(q, priority_of(pf, start, end, w) as u32, start));
    }
    assert forall|u: (usize, usize), v: (usize, usize)|
        #![trigger reached(pf, u, w), reached(pf, v, w)]
        on_grid(u, w, h) && reached(pf, u, w) && on_grid(v, w, h) && adjacent(u, v) && dist(pf, u, w)
            + step_between(map, u, v) < u32::MAX implies reached(pf, v, w) by {
        assert(step_closed(map, pf, u, v));
        if !reached(pf, v, w) {
            assert(dist(pf, v, w) < u32::MAX);
            assert(queued(q, priority_of(pf, v, end, w) as u32, v));
        }
    }
    assert forall|wk: Seq<(usize, usize)>| is_walk(map, wk, start, end) implies #[trigger] walk_cost(map, wk) >= u32::MAX by {
        if walk_cost(map, wk) < u32::MAX {
            lemma_walk_settled(map, pf, start, end, wk, wk.len() - 1);
            assert(wk[wk.len() - 1] == end);
        }
    }
}

/// Along an affordable walk from the start, once the search has run dry,
/// every cell is settled at no more than the walk's cost to it.
proof fn lemma_walk_settled(
    map: WorldMap,
    pf: PathFinder,
    start: (usize, usize),
    end: (usize, usize),
    wk: Seq<(usize, usize)>,
    i: int,
)
    requires
        tables_fit(map, pf),
        reached(pf, start, map.width),
        dist(pf, start, map.width) == 0,
        settled_optimal(map, pf, start, end),
        forall|u: (usize, usize), v: (usize, usize)|
            #![trigger reached(pf, u, map.width), reached(pf, v, map.width)]
            on_grid(u, map.width, map.height) && reached(pf, u, map.width) && on_grid(
                v,
                map.width,
                map.height,
            ) && adjacent(u, v) && dist(pf, u, map.width) + step_between(map, u, v) < u32::MAX
                ==> reached(pf, v, map.width),
        is_walk(map, wk, start, end),
        walk_cost(map, wk) < u32::MAX,
        0 <= i < wk.len(),
    ensures
        reached(pf, wk[i], map.width),
        dist(pf, wk[i], map.width) <= walk_cost(map, wk.take(i + 1)),
    decreases i,
{
    let w = map.width;
    let h = map.height;
    if i == 0 {
        assert(wk.take(1).len() == 1);
    } else {
        lemma_walk_settled(map, pf, start, end, wk, i - 1);
        let p = wk[i - 1];
        let x = wk[i];
        let t = wk.take(i + 1);
        lemma_walk_split(map, t, i - 1);
        assert(t.take(i) =~= wk.take(i));
        let pair = t.skip(i - 1);
        assert(pair.len() == 2);
        assert(pair[0] == p && pair[1] == x);
        assert(pair.drop_first().len() == 1);
        assert(walk_cost(map, pair.drop_first()) == 0);
        assert(walk_cost(map, pair) == step_between(map, pair[0], pair[1]) + walk_cost(map, pair.drop_first()));
        assert(walk_cost(map, pair) == step_between(map, p, x));
        lemma_walk_split(map, wk, i);
        assert(walk_cost(map, t) <= walk_cost(map, wk));
        assert(adjacent(wk[i - 1], wk[i - 1 + 1]));
        assert(on_grid(wk[i - 1], w, h) && on_grid(wk[i], w, h));
        assert(reached(pf, x, w));
        lemma_walk_take(map, wk, start, end, i);
        lemma_walk_skip(map, wk, start, end, i);
        lemma_estimate_walk(map, wk.skip(i), end);
        assert(wk.skip(i)[0] == x);
        assert(wk.skip(i).last() == end);
        assert(manhattan_cost(end, end) == 0);
        assert(walk_cost(map, t) + manhattan_cost(x, end) < u32::MAX);
    }
}

} // verus!
