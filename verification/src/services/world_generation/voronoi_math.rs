use vstd::prelude::*;

use crate::domain::geography::area::{Area, VALUE_SCALE};
use crate::domain::geography::elevation::OCEAN_LEVEL;
use crate::domain::world_data::map::WorldMap;
use crate::domain::world_data::point::Point;
use crate::domain::world_data::province::Province;

verus! {

/// The squared distance between `a` and `p`.
pub open spec fn sq_dist(a: (usize, usize), p: Point) -> nat {
    let dx: nat = (if a.0 >= p.0 {
        a.0 - p.0
    } else {
        p.0 - a.0
    }) as nat;
    let dy: nat = (if a.1 >= p.1 {
        a.1 - p.1
    } else {
        p.1 - a.1
    }) as nat;
    dx * dx + dy * dy
}

/// After looking at the first `n` points: the index of the first one
/// strictly closest to `q`, and its squared distance (0 and `usize::MAX`
/// before any point beats that).
pub open spec fn nearest_from(points: Seq<Point>, q: (usize, usize), n: int) -> (usize, nat)
    decreases n,
{
    if n <= 0 {
        (0, usize::MAX as nat)
    } else {
        let prev = nearest_from(points, q, n - 1);
        let d = sq_dist(q, points[n - 1]);
        if d < prev.1 {
            ((n - 1) as usize, d)
        } else {
            prev
        }
    }
}

/// The index of the first point closest to `q`; 0 when there is none.
pub open spec fn nearest(points: Seq<Point>, q: (usize, usize)) -> usize {
    nearest_from(points, q, points.len() as int).0
}

/// The cell with row-major index `c` on a grid `w` wide.
pub open spec fn cell_point(c: int, w: usize) -> Point {
    Point((c % (w as int)) as usize, (c / (w as int)) as usize)
}

/// The cells among the first `n` whose province is `k`, in row-major order.
pub open spec fn cells_owned(territory: Seq<usize>, w: usize, n: int, k: int) -> Seq<Point>
    decreases n,
{
    if n <= 0 {
        Seq::empty()
    } else if territory[n - 1] == k {
        cells_owned(territory, w, n - 1, k).push(cell_point(n - 1, w))
    } else {
        cells_owned(territory, w, n - 1, k)
    }
}

/// A province's cells are exactly the cells whose territory entry names
/// it: a cell is listed for province `k` among the first `n` exactly when
/// it is one of the first `n` cells and its entry is `k`.
pub proof fn law_cells_owned(territory: Seq<usize>, w: usize, n: int, k: int)
    requires
        0 <= n <= territory.len(),
    ensures
        forall|p: Point|
            #[trigger] cells_owned(territory, w, n, k).contains(p) <==> exists|c: int|
                0 <= c < n && territory[c] == k && #[trigger] cell_point(c, w) == p,
    decreases n,
{
    if n > 0 {
        law_cells_owned(territory, w, n - 1, k);
        let prev = cells_owned(territory, w, n - 1, k);
        assert forall|p: Point|
            #[trigger] cells_owned(territory, w, n, k).contains(p) <==> exists|c: int|
                0 <= c < n && territory[c] == k && #[trigger] cell_point(c, w) == p by {
            if territory[n - 1] == k {
                let cur = prev.push(cell_point(n - 1, w));
                assert(cells_owned(territory, w, n, k) == cur);
                if cur.contains(p) {
                    let i = choose|i: int| 0 <= i < cur.len() && cur[i] == p;
                    if i < prev.len() {
                        assert(prev[i] == p);
                        assert(prev.contains(p));
                    } else {
                        assert(cell_point(n - 1, w) == p);
                    }
                }
                if exists|c: int| 0 <= c < n && territory[c] == k && #[trigger] cell_point(c, w) == p {
                    let c = choose|c: int| 0 <= c < n && territory[c] == k && #[trigger] cell_point(c, w) == p;
                    if c < n - 1 {
                        assert(prev.contains(p));
                        let i = choose|i: int| 0 <= i < prev.len() && prev[i] == p;
                        assert(cur[i] == p);
                    } else {
                        assert(cur[prev.len() as int] == p);
                    }
                }
            } else {
                if exists|c: int| 0 <= c < n && territory[c] == k && #[trigger] cell_point(c, w) == p {
                    let c = choose|c: int| 0 <= c < n && territory[c] == k && #[trigger] cell_point(c, w) == p;
                    assert(c < n - 1);
                }
            }
        }
    }
}

/// Every warped cell's squared distance to every point fits in a `usize`.
pub open spec fn distances_fit(warp_field: Seq<(usize, usize)>, points: Seq<Point>) -> bool {
    forall|c: int, i: int|
        0 <= c < warp_field.len() && 0 <= i < points.len() ==> sq_dist(
            #[trigger] warp_field[c],
            #[trigger] points[i],
        ) <= usize::MAX
}

/// After the first `n` points (when all their distances fit in a
/// `usize`), the record is a point among them at its own distance, no
/// farther than any of them, and strictly nearer than every earlier one.
proof fn lemma_nearest_from(points: Seq<Point>, q: (usize, usize), n: int)
    requires
        1 <= n <= points.len(),
        points.len() <= usize::MAX,
        forall|i: int| 0 <= i < points.len() ==> sq_dist(q, #[trigger] points[i]) <= usize::MAX,
    ensures
        0 <= nearest_from(points, q, n).0 < n,
        nearest_from(points, q, n).1 == sq_dist(q, points[nearest_from(points, q, n).0 as int]),
        forall|j: int| 0 <= j < n ==> nearest_from(points, q, n).1 <= sq_dist(q, #[trigger] points[j]),
        forall|j: int|
            0 <= j < nearest_from(points, q, n).0 ==> sq_dist(q, #[trigger] points[j]) > nearest_from(
                points,
                q,
                n,
            ).1,
    decreases n,
{
    if n == 1 {
        assert(nearest_from(points, q, 0) == (0usize, usize::MAX as nat));
        assert(sq_dist(q, points[0]) <= usize::MAX);
    } else {
        lemma_nearest_from(points, q, n - 1);
    }
}

/// The Voronoi rule: the index chosen for `q` is a point of least squared
/// distance to `q`, and the first such point; no earlier point is as near.
pub proof fn law_nearest_is_closest(points: Seq<Point>, q: (usize, usize))
    requires
        0 < points.len() <= usize::MAX,
        forall|i: int| 0 <= i < points.len() ==> sq_dist(q, #[trigger] points[i]) <= usize::MAX,
    ensures
        nearest(points, q) < points.len(),
        forall|j: int|
            0 <= j < points.len() ==> sq_dist(q, points[nearest(points, q) as int]) <= sq_dist(
                q,
                #[trigger] points[j],
            ),
        forall|j: int|
            0 <= j < nearest(points, q) ==> sq_dist(q, #[trigger] points[j]) > sq_dist(
                q,
                points[nearest(points, q) as int],
            ),
{
    lemma_nearest_from(points, q, points.len() as int);
}

/// The index of the first of `points` closest to `q`.
pub fn nearest_point(points: &Vec<Point>, q: (usize, usize)) -> (r: usize)
    requires
        forall|i: int| 0 <= i < points@.len() ==> sq_dist(q, #[trigger] points@[i]) <= usize::MAX,
    ensures
        r == nearest(points@, q),
        r == 0 || r < points@.len(),
        points@.len() > 0 ==> r < points@.len() && forall|j: int|
            0 <= j < points@.len() ==> sq_dist(q, points@[r as int]) <= sq_dist(q, #[trigger] points@[j]),
        forall|j: int| 0 <= j < r ==> sq_dist(q, #[trigger] points@[j]) > sq_dist(q, points@[r as int]),
{
    let mut closest: usize = 0;
    let mut best: usize = usize::MAX;
    let mut i: usize = 0;
    while i < points.len()
        invariant
            i <= points@.len(),
            forall|j: int| 0 <= j < points@.len() ==> sq_dist(q, #[trigger] points@[j]) <= usize::MAX,
            (closest, best as nat) == nearest_from(points@, q, i as int),
            closest == 0 || closest < i,
        decreases points@.len() - i,
    {
        let p = points[i];
        let dx: usize = if q.0 >= p.0 {
            q.0 - p.0
        } else {
            p.0 - q.0
        };
        let dy: usize = if q.1 >= p.1 {
            q.1 - p.1
        } else {
            p.1 - q.1
        };
        proof {
            assert(sq_dist(q, points@[i as int]) <= usize::MAX);
            assert(dx * dx <= usize::MAX) by (nonlinear_arith)
                requires
                    dx * dx + dy * dy <= usize::MAX,
            ;
        }
        let distance: usize = dx * dx + dy * dy;
        if distance < best {
            best = distance;
            closest = i;
        }
        i = i + 1;
    }
    proof {
        if points@.len() > 0 {
            law_nearest_is_closest(points@, q);
        }
    }
    closest
}

/// Gives every cell of the map the province of the point nearest to its
/// warped position (the first such point on a tie), then lists each
/// province's cells in row-major order.
pub fn apply_voronoi(
    warp_field: &Vec<(usize, usize)>,
    map: &mut WorldMap,
    provinces: &mut Vec<Province>,
    points: &Vec<Point>,
)
    requires
        old(map).wf(),
        warp_field@.len() == old(map).width * old(map).height,
        distances_fit(warp_field@, points@),
        points@.len() <= old(provinces)@.len(),
        old(provinces)@.len() > 0,
    ensures
        final(map).width == old(map).width,
        final(map).height == old(map).height,
        final(map).terrain == old(map).terrain,
        final(map).wf(),
        forall|c: int|
            0 <= c < final(map).territory@.len() ==> #[trigger] final(map).territory@[c] == nearest(
                points@,
                warp_field@[c],
            ),
        final(provinces)@.len() == old(provinces)@.len(),
        forall|k: int|
            0 <= k < final(provinces)@.len() ==> (#[trigger] final(provinces)@[k]).id == old(
                provinces,
            )@[k].id && final(provinces)@[k].territory@ == cells_owned(
                final(map).territory@,
                final(map).width,
                final(map).territory@.len() as int,
                k,
            ),
{
    let w = map.width;
    let n = map.territory.len();
    let mut c: usize = 0;
    while c < n
        invariant
            n == map.territory@.len(),
            warp_field@.len() == n,
            c <= n,
            map.wf(),
            w == map.width,
            map.width == old(map).width,
            map.height == old(map).height,
            map.terrain == old(map).terrain,
            distances_fit(warp_field@, points@),
            forall|j: int| 0 <= j < c ==> #[trigger] map.territory@[j] == nearest(points@, warp_field@[j]),
        decreases n - c,
    {
        let q = warp_field[c];
        proof {
            assert forall|i: int| 0 <= i < points@.len() implies sq_dist(q, #[trigger] points@[i])
                <= usize::MAX by {
                assert(sq_dist(warp_field@[c as int], points@[i]) <= usize::MAX);
            }
        }
        let closest = nearest_point(points, q);
        map.territory.set(c, closest);
        c = c + 1;
    }
    let np = provinces.len();
    let mut k: usize = 0;
    while k < np
        invariant
            np == provinces@.len(),
            np == old(provinces)@.len(),
            k <= np,
            forall|j: int| 0 <= j < np ==> (#[trigger] provinces@[j]).id == old(provinces)@[j].id,
            forall|j: int| 0 <= j < k ==> (#[trigger] provinces@[j]).territory@.len() == 0,
        decreases np - k,
    {
        let ghost before = provinces@;
        provinces[k].territory.clear();
        proof {
            assert forall|j: int| 0 <= j < np implies (#[trigger] provinces@[j]).id == old(
                provinces,
            )@[j].id by {
                if j != k {
                    assert(provinces@[j] == before[j]);
                }
            }
            assert forall|j: int| 0 <= j < k + 1 implies (#[trigger] provinces@[j]).territory@.len()
                == 0 by {
                if j != k {
                    assert(provinces@[j] == before[j]);
                }
            }
        }
        k = k + 1;
    }
    proof {
        assert(map.width == 0 ==> map.width * map.height == 0) by (nonlinear_arith);
        assert forall|j: int| 0 <= j < n implies #[trigger] map.territory@[j] == 0
            || map.territory@[j] < points@.len() by {
            lemma_nearest_bound(points@, warp_field@[j], points@.len() as int);
        }
    }
    let mut c: usize = 0;
    while c < n
        invariant
            n == map.territory@.len(),
            c <= n,
            w == map.width,
            map.wf(),
            map.width > 0 || n == 0,
            np == provinces@.len(),
            np == old(provinces)@.len(),
            np > 0,
            points@.len() <= np,
            forall|j: int| 0 <= j < n ==> #[trigger] map.territory@[j] == 0 || map.territory@[j] < points@.len(),
            forall|j: int| 0 <= j < np ==> (#[trigger] provinces@[j]).id == old(provinces)@[j].id,
            forall|j: int|
                0 <= j < np ==> (#[trigger] provinces@[j]).territory@ == cells_owned(
                    map.territory@,
                    w,
                    c as int,
                    j,
                ),
        decreases n - c,
    {
        let province_idx = map.territory[c];
        let x = c % w;
        let y = c / w;
        let ghost before = provinces@;
        provinces[province_idx].territory.push(Point(x, y));
        proof {
            assert(Point(x, y) == cell_point(c as int, w));
            assert forall|j: int| 0 <= j < np implies (#[trigger] provinces@[j]).id == old(
                provinces,
            )@[j].id by {
                if j != province_idx {
                    assert(provinces@[j] == before[j]);
                }
            }
            assert forall|j: int| 0 <= j < np implies (#[trigger] provinces@[j]).territory@
                == cells_owned(map.territory@, w, c as int + 1, j) by {
                if j != province_idx {
                    assert(provinces@[j] == before[j]);
                }
            }
        }
        c = c + 1;
    }
}

/// Lowers every cell below the ocean level to height zero and makes it
/// fully wet.
pub fn ocean_set(map: &mut WorldMap)
    ensures
        final(map).width == old(map).width,
        final(map).height == old(map).height,
        final(map).territory == old(map).territory,
        final(map).terrain@.len() == old(map).terrain@.len(),
        forall|c: int|
            0 <= c < old(map).terrain@.len() ==> #[trigger] final(map).terrain@[c] == if old(
                map,
            ).terrain@[c].elevation_val < OCEAN_LEVEL {
                Area { elevation_val: 0, moisture_val: VALUE_SCALE }
            } else {
                old(map).terrain@[c]
            },
{
    let n = map.terrain.len();
    let mut c: usize = 0;
    while c < n
        invariant
            n == map.terrain@.len(),
            n == old(map).terrain@.len(),
            c <= n,
            map.width == old(map).width,
            map.height == old(map).height,
            map.territory == old(map).territory,
            forall|j: int|
                0 <= j < c ==> #[trigger] map.terrain@[j] == if old(map).terrain@[j].elevation_val
                    < OCEAN_LEVEL {
                    Area { elevation_val: 0, moisture_val: VALUE_SCALE }
                } else {
                    old(map).terrain@[j]
                },
            forall|j: int| c <= j < n ==> #[trigger] map.terrain@[j] == old(map).terrain@[j],
        decreases n - c,
    {
        if map.terrain[c].elevation_val < OCEAN_LEVEL {
            map.terrain.set(c, Area { elevation_val: 0, moisture_val: VALUE_SCALE });
        }
        c = c + 1;
    }
}

/// The centroid of every province, in order.
pub fn calculate_centroids(provinces: &Vec<Province>) -> (points: Vec<Point>)
    requires
        forall|k: int| 0 <= k < provinces@.len() ==> (#[trigger] provinces@[k]).sums_fit(),
    ensures
        points@.len() == provinces@.len(),
        forall|k: int| 0 <= k < provinces@.len() ==> #[trigger] points@[k] == provinces@[k].centroid_spec(),
{
    let mut points: Vec<Point> = Vec::new();
    let mut k: usize = 0;
    while k < provinces.len()
        invariant
            k <= provinces@.len(),
            points@.len() == k,
            forall|j: int| 0 <= j < provinces@.len() ==> (#[trigger] provinces@[j]).sums_fit(),
            forall|j: int| 0 <= j < k ==> #[trigger] points@[j] == provinces@[j].centroid_spec(),
        decreases provinces@.len() - k,
    {
        points.push(provinces[k].centroid());
        k = k + 1;
    }
    points
}

/// The row-major index of point `p` on a grid `w` wide.
pub open spec fn point_index(p: Point, w: usize) -> int {
    p.1 * w + p.0
}

/// Some cell of `pts` lies below the ocean level in `terrain`.
pub open spec fn below_ocean(terrain: Seq<Area>, pts: Seq<Point>, w: usize) -> bool {
    exists|i: int|
        0 <= i < pts.len() && (#[trigger] terrain[point_index(pts[i], w)]).elevation_val < OCEAN_LEVEL
}

/// `terrain` with every cell of `pts` lowered to height zero.
pub open spec fn sunk(terrain: Seq<Area>, pts: Seq<Point>, w: usize) -> Seq<Area>
    decreases pts.len(),
{
    if pts.len() == 0 {
        terrain
    } else {
        let t = sunk(terrain, pts.drop_last(), w);
        let c = point_index(pts.last(), w);
        t.update(c, Area { elevation_val: 0, moisture_val: t[c].moisture_val })
    }
}

/// Sinking lowers exactly the listed cells: a cell of `pts` ends at height
/// zero with its moisture kept, and every other cell is unchanged.
pub proof fn law_sunk_cells(terrain: Seq<Area>, pts: Seq<Point>, w: usize)
    requires
        forall|i: int| 0 <= i < pts.len() ==> 0 <= #[trigger] point_index(pts[i], w) < terrain.len(),
    ensures
        sunk(terrain, pts, w).len() == terrain.len(),
        forall|c: int|
            0 <= c < terrain.len() ==> #[trigger] sunk(terrain, pts, w)[c] == if exists|i: int|
                0 <= i < pts.len() && #[trigger] point_index(pts[i], w) == c {
                Area { elevation_val: 0, moisture_val: terrain[c].moisture_val }
            } else {
                terrain[c]
            },
    decreases pts.len(),
{
    if pts.len() > 0 {
        let d = pts.drop_last();
        assert forall|i: int| 0 <= i < d.len() implies 0 <= #[trigger] point_index(d[i], w) < terrain.len() by {
            assert(d[i] == pts[i]);
        }
        law_sunk_cells(terrain, d, w);
        let last = point_index(pts.last(), w);
        assert(pts[pts.len() - 1] == pts.last());
        assert forall|c: int|
            0 <= c < terrain.len() implies #[trigger] sunk(terrain, pts, w)[c] == if exists|i: int|
                0 <= i < pts.len() && #[trigger] point_index(pts[i], w) == c {
                Area { elevation_val: 0, moisture_val: terrain[c].moisture_val }
            } else {
                terrain[c]
            } by {
            if exists|i: int| 0 <= i < d.len() && #[trigger] point_index(d[i], w) == c {
                let i = choose|i: int| 0 <= i < d.len() && #[trigger] point_index(d[i], w) == c;
                assert(pts[i] == d[i]);
            }
            if exists|i: int| 0 <= i < pts.len() && #[trigger] point_index(pts[i], w) == c {
                let i = choose|i: int| 0 <= i < pts.len() && #[trigger] point_index(pts[i], w) == c;
                if i < d.len() {
                    assert(d[i] == pts[i]);
                }
            }
        }
    }
}

/// `terrain` after each province in turn that reaches below the ocean
/// level is lowered to height zero as a whole.
pub open spec fn aligned(terrain: Seq<Area>, provs: Seq<Province>, w: usize) -> Seq<Area>
    decreases provs.len(),
{
    if provs.len() == 0 {
        terrain
    } else {
        let t = aligned(terrain, provs.drop_last(), w);
        let pts = provs.last().territory@;
        if below_ocean(t, pts, w) {
            sunk(t, pts, w)
        } else {
            t
        }
    }
}

/// Every cell of every province lies on the grid.
pub open spec fn provinces_on_grid(provs: Seq<Province>, w: usize, h: usize) -> bool {
    forall|k: int, i: int|
        0 <= k < provs.len() && 0 <= i < provs[k].territory@.len() ==> (#[trigger] provs[k].territory@[i]).0
            < w && provs[k].territory@[i].1 < h
}

proof fn lemma_point_index_bound(p: Point, w: usize, h: usize)
    requires
        p.0 < w,
        p.1 < h,
    ensures
        0 <= point_index(p, w) < w * h,
{
    assert(p.1 * w + w <= h * w) by (nonlinear_arith)
        requires
            p.1 < h,
    ;
    assert(h * w == w * h) by (nonlinear_arith);
}

/// Lowers to height zero every province that has a cell below the ocean
/// level, so that coasts follow province borders.
pub fn edge_alignment(map: &mut WorldMap, provinces: &Vec<Province>)
    requires
        old(map).wf(),
        provinces_on_grid(provinces@, old(map).width, old(map).height),
    ensures
        final(map).width == old(map).width,
        final(map).height == old(map).height,
        final(map).territory == old(map).territory,
        final(map).terrain@ == aligned(old(map).terrain@, provinces@, old(map).width),
        final(map).wf(),
{
    let w = map.width;
    let h = map.height;
    let ghost t0 = map.terrain@;
    proof {
        assert(provinces@.take(0) =~= Seq::<Province>::empty());
    }
    let mut k: usize = 0;
    while k < provinces.len()
        invariant
            k <= provinces@.len(),
            w == map.width,
            h == map.height,
            map.width == old(map).width,
            map.height == old(map).height,
            map.territory == old(map).territory,
            map.wf(),
            t0 == old(map).terrain@,
            provinces_on_grid(provinces@, w, h),
            map.terrain@ == aligned(t0, provinces@.take(k as int), w),
        decreases provinces@.len() - k,
    {
        proof {
            assert(provinces@.take(k as int + 1).drop_last() =~= provinces@.take(k as int));
            assert(provinces@.take(k as int + 1).last() == provinces@[k as int]);
        }
        let territory = &provinces[k].territory;
        let ghost pts = territory@;
        let mut is_ocean = false;
        let mut i: usize = 0;
        while i < territory.len() && !is_ocean
            invariant
                i <= pts.len(),
                territory@ == pts,
                pts == provinces@[k as int].territory@,
                k < provinces@.len(),
                w == map.width,
                h == map.height,
                map.wf(),
                provinces_on_grid(provinces@, w, h),
                is_ocean == exists|j: int|
                    0 <= j < i && (#[trigger] map.terrain@[point_index(pts[j], w)]).elevation_val
                        < OCEAN_LEVEL,
            decreases pts.len() - i,
        {
            let point = territory[i];
            proof {
                assert(point == provinces@[k as int].territory@[i as int]);
                lemma_point_index_bound(point, w, h);
            }
            if map.terrain[point.1 * w + point.0].elevation_val < OCEAN_LEVEL {
                is_ocean = true;
            }
            i = i + 1;
        }
        proof {
            if !is_ocean {
                assert(i == pts.len());
            }
            assert(is_ocean == below_ocean(map.terrain@, pts, w));
        }
        if is_ocean {
            let ghost t1 = map.terrain@;
            proof {
                assert(pts.take(0) =~= Seq::<Point>::empty());
            }
            let mut i: usize = 0;
            while i < territory.len()
                invariant
                    i <= pts.len(),
                    territory@ == pts,
                    pts == provinces@[k as int].territory@,
                    k < provinces@.len(),
                    w == map.width,
                    h == map.height,
                    map.wf(),
                    map.width == old(map).width,
                    map.height == old(map).height,
                    map.territory == old(map).territory,
                    provinces_on_grid(provinces@, w, h),
                    map.terrain@ == sunk(t1, pts.take(i as int), w),
                decreases pts.len() - i,
            {
                let point = territory[i];
                proof {
                    assert(point == provinces@[k as int].territory@[i as int]);
                    lemma_point_index_bound(point, w, h);
                    assert(pts.take(i as int + 1).drop_last() =~= pts.take(i as int));
                    assert(pts.take(i as int + 1).last() == point);
                }
                let idx = point.1 * w + point.0;
                let moisture = map.terrain[idx].moisture_val;
                map.terrain.set(idx, Area { elevation_val: 0, moisture_val: moisture });
                i = i + 1;
            }
            proof {
                assert(pts.take(pts.len() as int) =~= pts);
            }
        }
        k = k + 1;
    }
    proof {
        assert(provinces@.take(provinces@.len() as int) =~= provinces@);
    }
}

/// The nearest index is 0 or one of the points looked at.
proof fn lemma_nearest_bound(points: Seq<Point>, q: (usize, usize), n: int)
    ensures
        nearest_from(points, q, n).0 == 0 || nearest_from(points, q, n).0 < n,
    decreases n,
{
    if n > 0 {
        lemma_nearest_bound(points, q, n - 1);
    }
}

} // verus!
