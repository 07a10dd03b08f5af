use game_core::domain::geography::area::{Area, VALUE_SCALE};
use game_core::domain::world_data::map::WorldMap;
use game_core::domain::world_data::point::Point;
use game_core::domain::world_data::province::Province;
use game_core::domain::world_data::world::World;
use game_core::services::world_generation::config::{SeedConfig, VoronoiConfig, WorldDimensions};
use game_core::services::world_generation::voronoi_math::{edge_alignment, nearest_point, ocean_set};
use game_core::services::world_generation::world_builder::build_voronoi;
use game_core::services::world_generation::world_builder_functions::{
    draw_points, first_distinct_draws, start_rng, WorldBuilderFunctions,
};

fn blank_map(width: usize, height: usize) -> WorldMap {
    WorldMap::new(width, height, vec![Area::new(500_000, 500_000); width * height], vec![0; width * height])
}

fn identity_warp(width: usize, height: usize) -> Vec<(usize, usize)> {
    let mut warp = Vec::new();
    for y in 0..height {
        for x in 0..width {
            warp.push((x, y));
        }
    }
    warp
}

#[test]
fn configs_have_documented_defaults() {
    let d = WorldDimensions::default();
    assert_eq!((d.width, d.height), (2000, 1500));
    let v = VoronoiConfig::default();
    assert_eq!((v.province_count, v.iteration_count), (500, 3));
    let s = SeedConfig::default();
    assert_eq!(s.points_seed_option, Some(67));
    assert_eq!(s.borders_seed_option, Some(69));
    assert_eq!(s.elevation_seed_option, Some(420));
    assert_eq!(s.moisture_seed_option, Some(2137));
}

#[test]
fn random_points_are_distinct_and_on_the_grid() {
    let points = WorldBuilderFunctions::generate_random_points(20, 6, 5, Some(7));
    assert_eq!(points.len(), 20);
    for (i, p) in points.iter().enumerate() {
        assert!(p.0 < 6 && p.1 < 5);
        for q in &points[i + 1..] {
            assert_ne!(p, q);
        }
    }
}

#[test]
fn random_points_fill_the_whole_grid_when_asked() {
    let points = WorldBuilderFunctions::generate_random_points(12, 4, 3, None);
    assert_eq!(points.len(), 12);
    let mut sorted: Vec<(usize, usize)> = points.iter().map(|p| (p.0, p.1)).collect();
    sorted.sort();
    sorted.dedup();
    assert_eq!(sorted.len(), 12);
}

#[test]
fn random_points_none_asked_none_given() {
    let points = WorldBuilderFunctions::generate_random_points(0, 4, 3, Some(1));
    assert!(points.is_empty());
}

#[test]
fn first_distinct_draws_keeps_draw_order_and_drops_repeats() {
    let draws = vec![Point(1, 1), Point(0, 2), Point(1, 1), Point(3, 0), Point(2, 2), Point(0, 0)];
    assert_eq!(
        first_distinct_draws(&draws, 3),
        vec![Point(1, 1), Point(0, 2), Point(3, 0)]
    );
    assert_eq!(first_distinct_draws(&draws, 10).len(), 5);
    assert!(first_distinct_draws(&draws, 0).is_empty());
}

#[test]
fn random_points_come_from_the_given_seed() {
    let mut rng = start_rng(Some(67));
    let direct = draw_points(&mut rng, 10, 50, 50);
    assert_eq!(direct, WorldBuilderFunctions::generate_random_points(10, 50, 50, Some(67)));
    // The same generator drawn further gives fresh cells.
    let more = draw_points(&mut rng, 3, 50, 50);
    assert_eq!(more.len(), 3);
}

#[test]
fn random_points_repeat_for_a_seed() {
    let a = WorldBuilderFunctions::generate_random_points(10, 50, 50, Some(67));
    let b = WorldBuilderFunctions::generate_random_points(10, 50, 50, Some(67));
    assert_eq!(a, b);
}

#[test]
fn nearest_point_takes_first_on_ties() {
    let points = vec![Point(0, 0), Point(4, 0), Point(2, 0)];
    assert_eq!(nearest_point(&points, (1, 0)), 0);
    assert_eq!(nearest_point(&points, (3, 0)), 1);
    assert_eq!(nearest_point(&points, (2, 1)), 2);
    assert_eq!(nearest_point(&vec![], (2, 1)), 0);
}

#[test]
fn apply_voronoi_splits_cells_by_nearest_seed() {
    let mut map = blank_map(4, 2);
    let warp = identity_warp(4, 2);
    let mut provinces = vec![Province::new(0), Province::new(1)];
    let points = vec![Point(0, 0), Point(3, 1)];
    WorldBuilderFunctions::apply_voronoi(&warp, &mut map, &mut provinces, &points);

    assert_eq!(map.territory, vec![0, 0, 1, 1, 0, 0, 1, 1]);
    assert_eq!(provinces[0].territory, vec![Point(0, 0), Point(1, 0), Point(0, 1), Point(1, 1)]);
    assert_eq!(provinces[1].territory, vec![Point(2, 0), Point(3, 0), Point(2, 1), Point(3, 1)]);
    assert_eq!(provinces[1].id, 1);
}

#[test]
fn calculate_centroids_takes_mean_cells() {
    let mut a = Province::new(0);
    a.territory = vec![Point(0, 0), Point(1, 0), Point(2, 1)];
    let b = Province::new(1);
    let centroids = WorldBuilderFunctions::calculate_centroids(&vec![a, b]);
    assert_eq!(centroids, vec![Point(1, 0), Point(0, 0)]);
}

#[test]
fn build_voronoi_with_no_iteration_changes_nothing() {
    let mut map = blank_map(3, 3);
    let warp = identity_warp(3, 3);
    let mut provinces = vec![Province::new(0)];
    build_voronoi(&warp, &mut map, &mut provinces, vec![Point(1, 1)], 0);
    assert_eq!(map.territory, vec![0; 9]);
    assert!(provinces[0].territory.is_empty());
}

#[test]
fn build_voronoi_relaxes_seeds_to_centroids() {
    let mut map = blank_map(4, 1);
    let warp = identity_warp(4, 1);
    let mut provinces = vec![Province::new(0), Province::new(1)];
    // First split: {0,1} for seed 0 and {2,3} for seed 3; centroids 0 and 2.
    // Second split with seeds 0 and 2: cell 1 ties and goes to the first.
    build_voronoi(&warp, &mut map, &mut provinces, vec![Point(0, 0), Point(3, 0)], 2);
    assert_eq!(map.territory, vec![0, 0, 1, 1]);
    assert_eq!(provinces[0].territory, vec![Point(0, 0), Point(1, 0)]);
    assert_eq!(provinces[1].territory, vec![Point(2, 0), Point(3, 0)]);
}

#[test]
fn ocean_set_floods_low_cells() {
    let mut map = WorldMap::new(
        3,
        1,
        vec![Area::new(100_000, 300_000), Area::new(200_000, 300_000), Area::new(199_999, 0)],
        vec![0; 3],
    );
    ocean_set(&mut map);
    assert_eq!(map.terrain[0], Area::new(0, VALUE_SCALE));
    assert_eq!(map.terrain[1], Area::new(200_000, 300_000));
    assert_eq!(map.terrain[2], Area::new(0, VALUE_SCALE));
}

#[test]
fn edge_alignment_sinks_whole_coastal_provinces() {
    let mut map = WorldMap::new(
        4,
        1,
        vec![
            Area::new(100_000, 10),
            Area::new(700_000, 20),
            Area::new(700_000, 30),
            Area::new(800_000, 40),
        ],
        vec![0, 0, 1, 1],
    );
    let mut coastal = Province::new(0);
    coastal.territory = vec![Point(0, 0), Point(1, 0)];
    let mut inland = Province::new(1);
    inland.territory = vec![Point(2, 0), Point(3, 0)];
    edge_alignment(&mut map, &vec![coastal, inland]);
    assert_eq!(map.terrain[0], Area::new(0, 10));
    assert_eq!(map.terrain[1], Area::new(0, 20));
    assert_eq!(map.terrain[2], Area::new(700_000, 30));
    assert_eq!(map.terrain[3], Area::new(800_000, 40));
}

#[test]
fn world_starts_without_buildings_or_settlements() {
    let map = blank_map(2, 2);
    let world = World::new(map, vec![Province::new(0)]);
    assert_eq!(world.map.width, 2);
    assert_eq!(world.provinces.len(), 1);
    assert!(world.buildings.is_empty());
    assert!(world.settlement.is_empty());
}

#[test]
fn build_voronoi_second_round_moves_the_border() {
    let warp = identity_warp(6, 1);

    let mut once = blank_map(6, 1);
    let mut provinces = vec![Province::new(0), Province::new(1)];
    build_voronoi(&warp, &mut once, &mut provinces, vec![Point(0, 0), Point(1, 0)], 1);
    assert_eq!(once.territory, vec![0, 1, 1, 1, 1, 1]);

    // The second seed moves to the centroid (3, 0) of cells 1..=5.
    let mut twice = blank_map(6, 1);
    let mut provinces = vec![Province::new(0), Province::new(1)];
    build_voronoi(&warp, &mut twice, &mut provinces, vec![Point(0, 0), Point(1, 0)], 2);
    assert_eq!(twice.territory, vec![0, 0, 1, 1, 1, 1]);
    assert_eq!(provinces[0].territory, vec![Point(0, 0), Point(1, 0)]);
}

#[test]
fn province_border_cells_touch_another_province() {
    let map = WorldMap::new(
        4,
        3,
        vec![Area::default(); 12],
        vec![
            0, 0, 1, 1, //
            0, 0, 1, 1, //
            0, 0, 1, 1,
        ],
    );
    assert!(map.is_province_border(1, 1));
    assert!(map.is_province_border(2, 1));
    let inner = WorldMap::new(3, 3, vec![Area::default(); 9], vec![5; 9]);
    assert!(!inner.is_province_border(1, 1));
}
