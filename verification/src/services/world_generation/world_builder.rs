use vstd::prelude::*;

use crate::domain::world_data::map::WorldMap;
use crate::domain::world_data::point::Point;
use crate::domain::world_data::province::{lemma_sums_bound, mean_point, sum_x, sum_y, Province};
use crate::services::world_generation::voronoi_math::{
    cell_point, cells_owned, distances_fit, nearest, sq_dist,
};
use crate::services::world_generation::world_builder_functions::WorldBuilderFunctions;

verus! {

/// The province of every cell when `points` seed the provinces.
pub open spec fn partition(warp_field: Seq<(usize, usize)>, points: Seq<Point>) -> Seq<usize> {
    Seq::new(warp_field.len(), |c: int| nearest(points, warp_field[c]))
}

/// The centroids of the `np` provinces of `territory`.
pub open spec fn centroids_of(territory: Seq<usize>, w: usize, np: nat) -> Seq<Point> {
    Seq::new(np, |k: int| mean_point(cells_owned(territory, w, territory.len() as int, k)))
}

/// The seed points after `iterations` rounds of moving every seed to the
/// centroid of its province.
pub open spec fn relaxed_points(
    warp_field: Seq<(usize, usize)>,
    points: Seq<Point>,
    w: usize,
    np: nat,
    iterations: nat,
) -> Seq<Point>
    decreases iterations,
{
    if iterations == 0 {
        points
    } else {
        centroids_of(
            partition(warp_field, relaxed_points(warp_field, points, w, np, (iterations - 1) as nat)),
            w,
            np,
        )
    }
}

/// Every on-grid seed is at a distance from every warped cell whose square
/// fits in a `usize`.
pub open spec fn grid_distances_fit(warp_field: Seq<(usize, usize)>, w: usize, h: usize) -> bool {
    forall|c: int, p: Point|
        0 <= c < warp_field.len() && p.0 < w && p.1 < h ==> #[trigger] sq_dist(warp_field[c], p)
            <= usize::MAX
}

/// Splits the map into provinces `iterations` times, moving the seeds to
/// their provinces' centroids after each split. With no iteration nothing
/// changes; otherwise the last split is the one of the seeds after
/// `iterations - 1` moves.
pub fn build_voronoi(
    warp_field: &Vec<(usize, usize)>,
    map: &mut WorldMap,
    provinces: &mut Vec<Province>,
    points: Vec<Point>,
    iterations: usize,
)
    requires
        old(map).wf(),
        old(map).width > 0,
        warp_field@.len() == old(map).width * old(map).height,
        (old(map).width * old(map).height) * old(map).width <= usize::MAX,
        (old(map).width * old(map).height) * old(map).height <= usize::MAX,
        distances_fit(warp_field@, points@),
        grid_distances_fit(warp_field@, old(map).width, old(map).height),
        points@.len() <= old(provinces)@.len(),
        old(provinces)@.len() > 0,
    ensures
        final(map).width == old(map).width,
        final(map).height == old(map).height,
        final(map).terrain == old(map).terrain,
        final(map).wf(),
        final(provinces)@.len() == old(provinces)@.len(),
        iterations == 0 ==> *final(map) == *old(map) && final(provinces)@ == old(provinces)@,
        iterations > 0 ==> {
            &&& final(map).territory@ == partition(
                warp_field@,
                relaxed_points(
                    warp_field@,
                    points@,
                    old(map).width,
                    old(provinces)@.len(),
                    (iterations - 1) as nat,
                ),
            )
            &&& forall|k: int|
                0 <= k < final(provinces)@.len() ==> (#[trigger] final(provinces)@[k]).id == old(
                    provinces,
                )@[k].id && final(provinces)@[k].territory@ == cells_owned(
                    final(map).territory@,
                    final(map).width,
                    final(map).territory@.len() as int,
                    k,
                )
        },
{
    let ghost w = map.width;
    let ghost h = map.height;
    let ghost np = provinces@.len();
    let ghost points0 = points@;
    let mut points = points;
    let mut i: usize = 0;
    while i < iterations
        invariant
            i <= iterations,
            map.wf(),
            map.width == w,
            map.height == h,
            w > 0,
            map.terrain == old(map).terrain,
            warp_field@.len() == w * h,
            (w * h) * w <= usize::MAX,
            (w * h) * h <= usize::MAX,
            grid_distances_fit(warp_field@, w, h),
            provinces@.len() == np,
            np == old(provinces)@.len(),
            np > 0,
            points@.len() <= np,
            distances_fit(warp_field@, points@),
            points@ == relaxed_points(warp_field@, points0, w, np, i as nat),
            i == 0 ==> *map == *old(map) && provinces@ == old(provinces)@,
            i > 0 ==> map.territory@ == partition(
                warp_field@,
                relaxed_points(warp_field@, points0, w, np, (i - 1) as nat),
            ),
            i > 0 ==> forall|k: int|
                0 <= k < np ==> (#[trigger] provinces@[k]).id == old(provinces)@[k].id
                    && provinces@[k].territory@ == cells_owned(
                    map.territory@,
                    w,
                    map.territory@.len() as int,
                    k,
                ),
        decreases iterations - i,
    {
        let ghost before = provinces@;
        WorldBuilderFunctions::apply_voronoi(warp_field, map, provinces, &points);
        proof {
            assert(map.territory@ =~= partition(warp_field@, points@));
            assert forall|k: int| 0 <= k < np implies (#[trigger] provinces@[k]).sums_fit() by {
                lemma_owned_on_grid(map.territory@, w, h, k);
                let s = provinces@[k].territory@;
                lemma_sums_bound(s, s.len() as int, w, h);
                lemma_owned_len(map.territory@, w, map.territory@.len() as int, k);
                assert(s.len() * (w - 1) <= (w * h) * w) by (nonlinear_arith)
                    requires
                        s.len() <= w * h,
                ;
                assert(s.len() * (h - 1) <= (w * h) * h) by (nonlinear_arith)
                    requires
                        s.len() <= w * h,
                ;
            }
            assert forall|k: int| 0 <= k < np implies (#[trigger] provinces@[k]).id == old(
                provinces,
            )@[k].id by {
                if i > 0 {
                } else {
                    assert(before[k] == old(provinces)@[k]);
                }
            }
        }
        let next = WorldBuilderFunctions::calculate_centroids(provinces);
        proof {
            assert(next@ =~= centroids_of(map.territory@, w, np));
            assert forall|c: int, j: int|
                0 <= c < warp_field@.len() && 0 <= j < next@.len() implies sq_dist(
                #[trigger] warp_field@[c],
                #[trigger] next@[j],
            ) <= usize::MAX by {
                lemma_owned_on_grid(map.territory@, w, h, j);
                lemma_mean_on_grid(provinces@[j].territory@, w, h);
            }
        }
        points = next;
        i = i + 1;
    }
}

/// The cells of a province are on the grid.
proof fn lemma_owned_on_grid(territory: Seq<usize>, w: usize, h: usize, k: int)
    requires
        w > 0,
        territory.len() == w * h,
    ensures
        forall|i: int|
            0 <= i < cells_owned(territory, w, territory.len() as int, k).len() ==> (#[trigger] cells_owned(
                territory,
                w,
                territory.len() as int,
                k,
            )[i]).0 < w && cells_owned(territory, w, territory.len() as int, k)[i].1 < h,
{
    lemma_owned_prefix_on_grid(territory, w, h, territory.len() as int, k);
}

proof fn lemma_owned_prefix_on_grid(territory: Seq<usize>, w: usize, h: usize, n: int, k: int)
    requires
        w > 0,
        n <= w * h,
    ensures
        forall|i: int|
            0 <= i < cells_owned(territory, w, n, k).len() ==> (#[trigger] cells_owned(
                territory,
                w,
                n,
                k,
            )[i]).0 < w && cells_owned(territory, w, n, k)[i].1 < h,
    decreases n,
{
    if n > 0 {
        lemma_owned_prefix_on_grid(territory, w, h, n - 1, k);
        let c = n - 1;
        assert(c % (w as int) < w && c / (w as int) < h) by (nonlinear_arith)
            requires
                w > 0,
                0 <= c < w * h,
        ;
        let prev = cells_owned(territory, w, n - 1, k);
        if territory[n - 1] == k {
            assert forall|i: int| 0 <= i < prev.push(cell_point(c, w)).len() implies (
            #[trigger] prev.push(cell_point(c, w))[i]).0 < w && prev.push(cell_point(c, w))[i].1
                < h by {
                if i < prev.len() {
                    assert(prev.push(cell_point(c, w))[i] == prev[i]);
                }
            }
        }
    }
}

proof fn lemma_owned_len(territory: Seq<usize>, w: usize, n: int, k: int)
    requires
        0 <= n,
    ensures
        cells_owned(territory, w, n, k).len() <= n,
    decreases n,
{
    if n > 0 {
        lemma_owned_len(territory, w, n - 1, k);
    }
}

/// The mean of on-grid cells is on the grid.
proof fn lemma_mean_on_grid(s: Seq<Point>, w: usize, h: usize)
    requires
        w > 0,
        h > 0,
        forall|i: int| 0 <= i < s.len() ==> (#[trigger] s[i]).0 < w && s[i].1 < h,
    ensures
        mean_point(s).0 < w,
        mean_point(s).1 < h,
{
    if s.len() > 0 {
        lemma_sums_bound(s, s.len() as int, w, h);
        let n = s.len();
        let sx = sum_x(s, n as int);
        let sy = sum_y(s, n as int);
        assert(sx / n < w) by (nonlinear_arith)
            requires
                n > 0,
                sx <= n * (w - 1),
                w > 0,
        ;
        assert(sy / n < h) by (nonlinear_arith)
            requires
                n > 0,
                sy <= n * (h - 1),
                h > 0,
        ;
    }
}

} // verus!
