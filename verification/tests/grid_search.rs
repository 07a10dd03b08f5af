use game_core::domain::geography::area::Area;
use game_core::domain::world_data::map::WorldMap;
use game_core::services::algorithms::a_star::AStar;
use game_core::services::algorithms::dijkstra_flood::DijkstraFlood;
use game_core::services::algorithms::grid::move_cost;
use game_core::services::algorithms::min_queue::MinQueue;
use game_core::services::algorithms::path_finder::PathFinder;

/// A map whose elevations are given row by row, in millionths.
fn map_from(width: usize, height: usize, elevations: &[u32]) -> WorldMap {
    assert_eq!(elevations.len(), width * height);
    let terrain: Vec<Area> = elevations.iter().map(|e| Area::new(*e, 500_000)).collect();
    WorldMap::new(width, height, terrain, vec![0; width * height])
}

fn flat_map(width: usize, height: usize) -> WorldMap {
    map_from(width, height, &vec![500_000; width * height])
}

fn assert_adjacent_path(path: &[usize], width: usize) {
    for pair in path.windows(2) {
        let (ax, ay) = (pair[0] % width, pair[0] / width);
        let (bx, by) = (pair[1] % width, pair[1] / width);
        assert_eq!(ax.abs_diff(bx) + ay.abs_diff(by), 1, "consecutive cells must share a side");
    }
}

#[test]
fn move_cost_adds_height_penalty() {
    assert_eq!(move_cost(500_000, 500_000), 10);
    // A tenth of the scale up: 100_000 / 10_000 = 10 extra.
    assert_eq!(move_cost(500_000, 600_000), 20);
    assert_eq!(move_cost(600_000, 500_000), 20);
    assert_eq!(move_cost(0, 9_999), 10);
}

#[test]
fn min_queue_hands_out_smallest_entry_first() {
    let mut q = MinQueue::new();
    q.push((5, (0, 0)));
    q.push((2, (3, 1)));
    q.push((2, (1, 4)));
    q.push((9, (0, 0)));
    assert_eq!(q.pop(), Some((2, (1, 4))));
    assert_eq!(q.pop(), Some((2, (3, 1))));
    assert_eq!(q.pop(), Some((5, (0, 0))));
    assert_eq!(q.pop(), Some((9, (0, 0))));
    assert_eq!(q.pop(), None);
}

#[test]
fn path_finder_new_and_generation() {
    let mut pf = PathFinder::new(3, 2);
    assert_eq!(pf.g_score.len(), 6);
    assert!(pf.g_score.iter().all(|g| *g == u32::MAX));
    pf.visited[4] = true;
    pf.new_generation((1, 1), 3);
    assert_eq!(pf.g_score[4], 0);
    assert!(!pf.visited[4]);
    assert_eq!(PathFinder::point_to_idx((2, 1), 3), 5);
    assert_eq!(PathFinder::neighbors((0, 0), 3, 2), vec![(1, 0), (0, 1)]);
    assert_eq!(PathFinder::neighbors((1, 1), 3, 2), vec![(0, 1), (2, 1), (1, 0)]);
}

#[test]
fn a_star_straight_line_on_flat_ground() {
    let map = flat_map(5, 1);
    let mut pf = PathFinder::new(5, 1);
    let path = AStar::a_star(&map, &mut pf, (0, 0), (4, 0)).unwrap();
    assert_eq!(path, vec![0, 1, 2, 3, 4]);
    assert_eq!(pf.g_score[4], 40);
}

#[test]
fn a_star_start_is_end() {
    let map = flat_map(3, 3);
    let mut pf = PathFinder::new(3, 3);
    let path = AStar::a_star(&map, &mut pf, (1, 1), (1, 1)).unwrap();
    assert_eq!(path, vec![4]);
}

#[test]
fn a_star_goes_around_a_steep_hill() {
    // 3x3 with a peak in the middle: the way round is cheaper than across.
    let map = map_from(3, 3, &[0, 0, 0, 0, 1_000_000, 0, 0, 0, 0]);
    let mut pf = PathFinder::new(3, 3);
    let path = AStar::a_star(&map, &mut pf, (0, 1), (2, 1)).unwrap();
    assert_eq!(path.first(), Some(&3));
    assert_eq!(path.last(), Some(&5));
    assert!(!path.contains(&4));
    assert_adjacent_path(&path, 3);
    assert_eq!(path.len(), 5);
}

#[test]
fn a_star_path_is_connected_on_a_larger_map() {
    let mut elev = vec![300_000; 8 * 6];
    for (i, e) in elev.iter_mut().enumerate() {
        *e += ((i * 37) % 11) as u32 * 20_000;
    }
    let map = map_from(8, 6, &elev);
    let mut pf = PathFinder::new(8, 6);
    let path = AStar::a_star(&map, &mut pf, (0, 5), (7, 0)).unwrap();
    assert_eq!(path[0], 5 * 8);
    assert_eq!(*path.last().unwrap(), 7);
    assert_adjacent_path(&path, 8);
}

#[test]
fn a_star_takes_the_detour_round_a_ridge() {
    let map = map_from(3, 2, &[0, 500_000, 0, 0, 0, 0]);
    let mut pf = PathFinder::new(3, 2);
    assert_eq!(AStar::a_star(&map, &mut pf, (0, 0), (2, 0)), Some(vec![0, 3, 4, 5, 2]));
    // A path finder left over from a search gives the same answer.
    assert_eq!(AStar::a_star(&map, &mut pf, (0, 0), (2, 0)), Some(vec![0, 3, 4, 5, 2]));
}

#[test]
fn a_star_path_cost_is_the_shortest() {
    let (w, h) = (7usize, 5usize);
    let mut elev = vec![200_000; w * h];
    for (i, e) in elev.iter_mut().enumerate() {
        *e += ((i * 53) % 13) as u32 * 45_000;
    }
    let map = map_from(w, h, &elev);
    let mut pf = PathFinder::new(w, h);
    let path = AStar::a_star(&map, &mut pf, (0, 0), (6, 4)).unwrap();
    assert_adjacent_path(&path, w);
    let cost: u32 = path.windows(2).map(|p| move_cost(elev[p[0]], elev[p[1]])).sum();
    assert_eq!(cost, pf.g_score[6 + 4 * w]);
    // Relax every edge until nothing changes: the true shortest cost.
    let mut best = vec![u32::MAX; w * h];
    best[0] = 0;
    loop {
        let mut changed = false;
        for i in 0..w * h {
            if best[i] == u32::MAX {
                continue;
            }
            let (x, y) = (i % w, i / w);
            let mut next = vec![];
            if x > 0 { next.push(i - 1); }
            if x + 1 < w { next.push(i + 1); }
            if y > 0 { next.push(i - w); }
            if y + 1 < h { next.push(i + w); }
            for j in next {
                let c = best[i] + move_cost(elev[i], elev[j]);
                if c < best[j] {
                    best[j] = c;
                    changed = true;
                }
            }
        }
        if !changed {
            break;
        }
    }
    assert_eq!(cost, best[6 + 4 * w]);
}

#[test]
fn heuristic_is_manhattan_distance_in_move_costs() {
    assert_eq!(AStar::heuristic((0, 0), (3, 4)), 70);
    assert_eq!(AStar::heuristic((5, 1), (2, 1)), 30);
}

#[test]
fn dijkstra_flood_respects_budget() {
    let map = flat_map(5, 1);
    let mut pf = PathFinder::new(5, 1);
    let zone = DijkstraFlood::dijkstra_flood(&map, &mut pf, (2, 0), 10);
    let mut sorted = zone.clone();
    sorted.sort();
    assert_eq!(sorted, vec![1, 2, 3]);
    assert_eq!(zone[0], 2);
}

#[test]
fn dijkstra_flood_zero_budget_is_start_only() {
    let map = flat_map(4, 4);
    let mut pf = PathFinder::new(4, 4);
    let zone = DijkstraFlood::dijkstra_flood(&map, &mut pf, (1, 1), 0);
    assert_eq!(zone, vec![5]);
}

#[test]
fn dijkstra_flood_never_enters_the_ocean() {
    // Ocean column in the middle of a 3x3 map.
    let map = map_from(3, 3, &[500_000, 0, 500_000, 500_000, 0, 500_000, 500_000, 0, 500_000]);
    let mut pf = PathFinder::new(3, 3);
    let zone = DijkstraFlood::dijkstra_flood(&map, &mut pf, (0, 0), 1000);
    let mut sorted = zone.clone();
    sorted.sort();
    assert_eq!(sorted, vec![0, 3, 6]);
}

#[test]
fn dijkstra_flood_lists_cells_cheapest_first() {
    let map = flat_map(4, 4);
    let mut pf = PathFinder::new(4, 4);
    let zone = DijkstraFlood::dijkstra_flood(&map, &mut pf, (0, 0), 30);
    assert_eq!(zone.len(), 10);
    for pair in zone.windows(2) {
        assert!(pf.g_score[pair[0]] <= pf.g_score[pair[1]]);
    }
    for cell in &zone {
        assert!(pf.g_score[*cell] <= 30);
    }
}

#[test]
fn dijkstra_flood_height_steps_cost_more() {
    // Going up a full tenth of the scale costs 10 + 10 = 20.
    let map = map_from(3, 1, &[300_000, 400_000, 400_000]);
    let mut pf = PathFinder::new(3, 1);
    let zone = DijkstraFlood::dijkstra_flood(&map, &mut pf, (0, 0), 25);
    assert_eq!(zone, vec![0, 1]);
    assert_eq!(pf.g_score[1], 20);
}

#[test]
fn dijkstra_flood_zone_grows_with_the_budget() {
    let mut elev = vec![300_000; 6 * 5];
    for (i, e) in elev.iter_mut().enumerate() {
        *e += ((i * 29) % 7) as u32 * 30_000;
    }
    let map = map_from(6, 5, &elev);
    let mut pf = PathFinder::new(6, 5);
    let mut previous: Vec<usize> = vec![];
    for budget in [0u32, 15, 30, 45, 80, 200] {
        let zone = DijkstraFlood::dijkstra_flood(&map, &mut pf, (2, 2), budget);
        for c in &previous {
            assert!(zone.contains(c), "budget {} lost cell {}", budget, c);
        }
        previous = zone;
    }
    assert_eq!(previous.len(), 30);
}

#[test]
fn neighbors_are_symmetric() {
    let (w, h) = (4, 3);
    for x in 0..w {
        for y in 0..h {
            for q in PathFinder::neighbors((x, y), w, h) {
                assert!(PathFinder::neighbors(q, w, h).contains(&(x, y)));
            }
        }
    }
}

#[test]
fn dijkstra_flood_orders_equal_costs_by_column_then_row() {
    let map = flat_map(3, 3);
    let mut pf = PathFinder::new(3, 3);
    let zone = DijkstraFlood::dijkstra_flood(&map, &mut pf, (1, 1), 10);
    assert_eq!(zone, vec![4, 3, 1, 7, 5]);
}
