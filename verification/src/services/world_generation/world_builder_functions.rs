use rand::rngs::StdRng;
use rand::{RngExt, SeedableRng};
use vstd::prelude::*;

use crate::domain::world_data::map::WorldMap;
use crate::domain::world_data::point::Point;
use crate::domain::world_data::province::Province;
use crate::services::world_generation::voronoi_math::{
    apply_voronoi, calculate_centroids, cells_owned, distances_fit, nearest,
};

verus! {

#[verifier::external_type_specification]
#[verifier::external_body]
pub struct ExStdRng(StdRng);

/// `rand::rng().random::<u64>()`: a seed drawn from the thread's random
/// source. Nothing is claimed of its value. The thread's generator is seeded
/// from the operating system, and the call panics should that source fail,
/// which no precondition can rule out.
#[verifier::external_body]
fn fresh_seed() -> u64 {
    rand::rng().random()
}

/// A random generator together with the seed it was started from and the
/// cells drawn from it so far (both kept for the proofs only).
pub struct SeededRng {
    rng: StdRng,
    seed: Ghost<u64>,
    cells: Ghost<Seq<Point>>,
}

impl SeededRng {
    /// The seed the generator was started from.
    pub closed spec fn started_from(&self) -> u64 {
        self.seed@
    }

    /// The cells drawn from the generator, in draw order.
    pub closed spec fn cells(&self) -> Seq<Point> {
        self.cells@
    }
}

/// `StdRng::seed_from_u64`: a generator started from `seed`, with no cell
/// drawn yet. What it will draw is not claimed: the crate documents its
/// output as not portable, even for a fixed seed.
#[verifier::external_body]
fn seeded_rng(seed: u64) -> (r: SeededRng)
    ensures
        r.started_from() == seed,
        r.cells() == Seq::<Point>::empty(),
{
    SeededRng { rng: StdRng::seed_from_u64(seed), seed: Ghost(seed), cells: Ghost(Seq::empty()) }
}

/// `RngExt::random_range(0..bound)`: a value drawn from `0..bound`, which
/// the crate's uniform sampler keeps below `bound`; it panics on an empty
/// range, which `requires` rules out. The seed and the cell record are
/// left as they are.
#[verifier::external_body]
fn draw_below(rng: &mut SeededRng, bound: usize) -> (v: usize)
    requires
        bound > 0,
    ensures
        v < bound,
        final(rng).started_from() == old(rng).started_from(),
        final(rng).cells() == old(rng).cells(),
{
    rng.rng.random_range(0..bound)
}

/// Draws one cell of a `width` by `height` grid, column first, and records
/// it.
fn draw_cell(rng: &mut SeededRng, width: usize, height: usize) -> (p: Point)
    requires
        width > 0,
        height > 0,
    ensures
        p.0 < width && p.1 < height,
        final(rng).started_from() == old(rng).started_from(),
        final(rng).cells() == old(rng).cells().push(p),
{
    let x = draw_below(rng, width);
    let y = draw_below(rng, height);
    let p = Point(x, y);
    rng.cells = Ghost(rng.cells@.push(p));
    p
}

/// The generator for a draw: started from the given seed, or, without
/// one, from a fresh seed; no cell drawn yet.
pub fn start_rng(seed_option: Option<u64>) -> (r: SeededRng)
    ensures
        seed_option is Some ==> r.started_from() == seed_option->0,
        r.cells() == Seq::<Point>::empty(),
{
    let state: u64 = match seed_option {
        Some(s) => s,
        None => fresh_seed(),
    };
    seeded_rng(state)
}

/// The cells drawn from `new` since it was `old`.
pub open spec fn drawn_since(old: SeededRng, new: SeededRng) -> Seq<Point> {
    new.cells().skip(old.cells().len() as int)
}

/// Helpers of world generation that need no noise.
pub struct WorldBuilderFunctions;

/// No point occurs twice in `s`.
pub open spec fn distinct_points(s: Seq<Point>) -> bool {
    forall|i: int, j: int| 0 <= i < j < s.len() ==> #[trigger] s[i] != #[trigger] s[j]
}

/// The row-major index of `p` on a grid `w` wide.
pub open spec fn grid_ix(p: Point, w: usize) -> int {
    p.1 * w + p.0
}

/// How many of the points in `s` have a row-major index below `k`.
pub open spec fn below(s: Seq<Point>, k: int, w: usize) -> nat
    decreases s.len(),
{
    if s.len() == 0 {
        0
    } else {
        below(s.drop_last(), k, w) + if grid_ix(s.last(), w) < k {
            1nat
        } else {
            0nat
        }
    }
}

/// No point has an index below zero.
proof fn lemma_below_zero(s: Seq<Point>, w: usize)
    ensures
        below(s, 0, w) == 0,
    decreases s.len(),
{
    if s.len() > 0 {
        lemma_below_zero(s.drop_last(), w);
    }
}

/// Counting never exceeds the length.
proof fn lemma_below_len(s: Seq<Point>, k: int, w: usize)
    ensures
        below(s, k, w) <= s.len(),
    decreases s.len(),
{
    if s.len() > 0 {
        lemma_below_len(s.drop_last(), k, w);
    }
}

/// Two cells of a grid `w` wide with the same index are the same cell.
proof fn lemma_grid_ix_injective(a: Point, b: Point, w: usize)
    requires
        a.0 < w,
        b.0 < w,
        grid_ix(a, w) == grid_ix(b, w),
    ensures
        a == b,
{
    assert(a.1 == b.1 && a.0 == b.0) by (nonlinear_arith)
        requires
            a.0 < w,
            b.0 < w,
            a.1 * w + a.0 == b.1 * w + b.0,
    ;
}

/// Raising the bound past the index of cell `c` counts `c` once if the
/// distinct on-grid points of `s` hold it, and nothing more.
proof fn lemma_below_step(s: Seq<Point>, c: Point, w: usize)
    requires
        c.0 < w,
        distinct_points(s),
        forall|i: int| 0 <= i < s.len() ==> (#[trigger] s[i]).0 < w,
    ensures
        below(s, grid_ix(c, w) + 1, w) == below(s, grid_ix(c, w), w) + if s.contains(c) {
            1nat
        } else {
            0nat
        },
    decreases s.len(),
{
    if s.len() > 0 {
        let d = s.drop_last();
        let k = grid_ix(c, w);
        assert forall|i: int| 0 <= i < d.len() implies (#[trigger] d[i]).0 < w by {
            assert(d[i] == s[i]);
        }
        assert forall|i: int, j: int| 0 <= i < j < d.len() implies #[trigger] d[i] != #[trigger] d[j] by {
            assert(d[i] == s[i] && d[j] == s[j]);
        }
        lemma_below_step(d, c, w);
        let l = s.last();
        assert(l == s[s.len() - 1]);
        if grid_ix(l, w) == k {
            lemma_grid_ix_injective(l, c, w);
            assert(s.contains(c));
            if d.contains(c) {
                let i = choose|i: int| 0 <= i < d.len() && d[i] == c;
                assert(s[i] == c);
                assert(s[i] != s[s.len() - 1]);
            }
        } else {
            if s.contains(c) {
                let i = choose|i: int| 0 <= i < s.len() && s[i] == c;
                assert(i != s.len() - 1);
                assert(d[i] == c);
            }
            if d.contains(c) {
                let i = choose|i: int| 0 <= i < d.len() && d[i] == c;
                assert(s[i] == c);
            }
        }
    }
}

/// Whether `p` occurs in `points`.
fn contains_point(points: &Vec<Point>, p: Point) -> (b: bool)
    ensures
        b == points@.contains(p),
{
    let mut i: usize = 0;
    while i < points.len()
        invariant
            i <= points@.len(),
            forall|j: int| 0 <= j < i ==> points@[j] != p,
        decreases points@.len() - i,
    {
        if points[i] == p {
            assert(points@[i as int] == p);
            return true;
        }
        i = i + 1;
    }
    false
}

/// The first `count` distinct cells of `draws`, in the order they were
/// drawn: a draw that repeats a kept cell, or comes once `count` are kept,
/// is dropped.
pub open spec fn first_distinct(draws: Seq<Point>, count: nat) -> Seq<Point>
    decreases draws.len(),
{
    if draws.len() == 0 {
        Seq::empty()
    } else {
        let prev = first_distinct(draws.drop_last(), count);
        if prev.len() < count && !prev.contains(draws.last()) {
            prev.push(draws.last())
        } else {
            prev
        }
    }
}

/// Keeps the drawn cell `pt` when fewer than `count` cells are kept and it
/// is not one of them.
pub fn keep_new_draw(points: &mut Vec<Point>, pt: Point, count: usize)
    ensures
        final(points)@ == if old(points)@.len() < count && !old(points)@.contains(pt) {
            old(points)@.push(pt)
        } else {
            old(points)@
        },
{
    if points.len() < count && !contains_point(points, pt) {
        points.push(pt);
    }
}

/// The first `count` distinct cells of `draws`, in draw order.
pub fn first_distinct_draws(draws: &Vec<Point>, count: usize) -> (points: Vec<Point>)
    ensures
        points@ == first_distinct(draws@, count as nat),
{
    let mut points: Vec<Point> = Vec::new();
    let mut i: usize = 0;
    while i < draws.len()
        invariant
            i <= draws@.len(),
            points@ == first_distinct(draws@.take(i as int), count as nat),
        decreases draws@.len() - i,
    {
        proof {
            assert(draws@.take(i + 1).drop_last() =~= draws@.take(i as int));
            assert(draws@.take(i + 1).last() == draws@[i as int]);
        }
        keep_new_draw(&mut points, draws[i], count);
        i = i + 1;
    }
    proof {
        assert(draws@.take(draws@.len() as int) =~= draws@);
    }
    points
}

/// Kept draws are distinct.
proof fn lemma_first_distinct_distinct(draws: Seq<Point>, count: nat)
    ensures
        distinct_points(first_distinct(draws, count)),
        first_distinct(draws, count).len() <= count,
    decreases draws.len(),
{
    if draws.len() > 0 {
        lemma_first_distinct_distinct(draws.drop_last(), count);
        let prev = first_distinct(draws.drop_last(), count);
        if prev.len() < count && !prev.contains(draws.last()) {
            let r = prev.push(draws.last());
            assert forall|i: int, j: int| 0 <= i < j < r.len() implies #[trigger] r[i] != #[trigger] r[j] by {
                if j == prev.len() {
                    assert(r[i] == prev[i]);
                    assert(prev.contains(prev[i]));
                } else {
                    assert(r[i] == prev[i] && r[j] == prev[j]);
                }
            }
        }
    }
}

impl WorldBuilderFunctions {
    /// `count` distinct cells of a `width` by `height` grid drawn at
    /// random from a generator started from `seed_option` or, without one,
    /// from a fresh seed (see `start_rng`): the first `count` distinct
    /// draws, in draw order (see `draw_points`).
    pub fn generate_random_points(count: usize, width: usize, height: usize, seed_option: Option<u64>) -> (points:
        Vec<Point>)
        requires
            count <= width * height,
        ensures
            points@.len() == count,
            distinct_points(points@),
            forall|i: int|
                0 <= i < points@.len() ==> (#[trigger] points@[i]).0 < width && points@[i].1 < height,
            exists|drawn: Seq<Point>|
                {
                    &&& drawn.len() <= u64::MAX
                    &&& forall|i: int| 0 <= i < drawn.len() ==> (#[trigger] drawn[i]).0 < width && drawn[i].1 < height
                    &&& #[trigger] first_distinct(drawn, count as nat) == points@.take(
                        first_distinct(drawn, count as nat).len() as int,
                    )
                    &&& drawn.len() < u64::MAX ==> points@ == first_distinct(drawn, count as nat)
                },
    {
        let mut rng = start_rng(seed_option);
        draw_points(&mut rng, count, width, height)
    }
}

/// `count` distinct cells of a `width` by `height` grid drawn from `rng`:
/// the first `count` distinct draws, in draw order. A draw that repeats an
/// earlier cell is dropped and drawn again. Every loop here must end, so
/// the drawing stops after `u64::MAX` draws; should that many pass without
/// `count` cells, the free cells are taken in row-major order until there
/// are `count`.
pub fn draw_points(rng: &mut SeededRng, count: usize, width: usize, height: usize) -> (points: Vec<Point>)
    requires
        count <= width * height,
    ensures
        final(rng).started_from() == old(rng).started_from(),
        final(rng).cells().len() >= old(rng).cells().len(),
        final(rng).cells().take(old(rng).cells().len() as int) == old(rng).cells(),
        drawn_since(*old(rng), *final(rng)).len() <= u64::MAX,
        forall|i: int|
            0 <= i < drawn_since(*old(rng), *final(rng)).len() ==> (#[trigger] drawn_since(
                *old(rng),
                *final(rng),
            )[i]).0 < width && drawn_since(*old(rng), *final(rng))[i].1 < height,
        points@.len() == count,
        distinct_points(points@),
        forall|i: int|
            0 <= i < points@.len() ==> (#[trigger] points@[i]).0 < width && points@[i].1 < height,
        first_distinct(drawn_since(*old(rng), *final(rng)), count as nat) == points@.take(
            first_distinct(drawn_since(*old(rng), *final(rng)), count as nat).len() as int,
        ),
        drawn_since(*old(rng), *final(rng)).len() < u64::MAX ==> points@ == first_distinct(
            drawn_since(*old(rng), *final(rng)),
            count as nat,
        ),
{
    let mut points: Vec<Point> = Vec::new();
    let ghost mut drawn: Seq<Point> = Seq::empty();
    let ghost c0 = rng.cells();
    let mut draws: u64 = 0;
    while points.len() < count && draws < u64::MAX
        invariant
            points@.len() <= count,
            count <= width * height,
            distinct_points(points@),
            forall|i: int|
                0 <= i < points@.len() ==> (#[trigger] points@[i]).0 < width && points@[i].1
                    < height,
            drawn.len() == draws,
            forall|i: int| 0 <= i < drawn.len() ==> (#[trigger] drawn[i]).0 < width && drawn[i].1 < height,
            points@ == first_distinct(drawn, count as nat),
            rng.started_from() == old(rng).started_from(),
            c0 == old(rng).cells(),
            rng.cells() == c0 + drawn,
        decreases u64::MAX - draws,
    {
        proof {
            assert(width > 0 && height > 0) by (nonlinear_arith)
                requires
                    points@.len() < count,
                    count <= width * height,
            ;
        }
        let pt = draw_cell(rng, width, height);
        let ghost before = points@;
        keep_new_draw(&mut points, pt, count);
        proof {
            let nd = drawn.push(pt);
            assert(nd.drop_last() =~= drawn);
            assert(nd.last() == pt);
            lemma_first_distinct_distinct(nd, count as nat);
            assert forall|i: int| 0 <= i < points@.len() implies (#[trigger] points@[i]).0 < width
                && points@[i].1 < height by {
                if i < before.len() {
                    assert(points@[i] == before[i]);
                }
            }
            assert((c0 + drawn).push(pt) =~= c0 + nd);
            drawn = nd;
        }
        draws = draws + 1;
    }
    let ghost kept = first_distinct(drawn, count as nat);
    proof {
        assert(kept == points@.take(kept.len() as int));
        assert(rng.cells().skip(c0.len() as int) =~= drawn);
        assert(rng.cells().take(c0.len() as int) =~= c0);
    }
    if points.len() < count {
        proof {
            assert(width > 0 && height > 0) by (nonlinear_arith)
                requires
                    points@.len() < count,
                    count <= width * height,
            ;
            lemma_below_zero(points@, width);
        }
        let mut x: usize = 0;
        let mut y: usize = 0;
        while points.len() < count && y < height
            invariant
                points@.len() <= count,
                count <= width * height,
                width > 0,
                distinct_points(points@),
                forall|i: int|
                    0 <= i < points@.len() ==> (#[trigger] points@[i]).0 < width && points@[i].1
                        < height,
                x < width,
                y <= height,
                y == height ==> x == 0,
                below(points@, y * width + x, width) == y * width + x,
                kept.len() <= points@.len(),
                kept == points@.take(kept.len() as int),
            decreases height - y, width - x,
        {
            let pt = Point(x, y);
            let ghost k: int = y * width + x;
            let ghost before = points@;
            proof {
                lemma_below_step(before, pt, width);
            }
            if !contains_point(&points, pt) {
                points.push(pt);
                proof {
                    assert(points@.drop_last() =~= before);
                    assert(points@.take(kept.len() as int) =~= before.take(kept.len() as int));
                    assert forall|i: int, j: int| 0 <= i < j < points@.len() implies #[trigger] points@[i]
                        != #[trigger] points@[j] by {
                        if j == before.len() {
                            assert(points@[i] == before[i]);
                            assert(before.contains(before[i]));
                        } else {
                            assert(points@[i] == before[i] && points@[j] == before[j]);
                        }
                    }
                    assert forall|i: int| 0 <= i < points@.len() implies (#[trigger] points@[i]).0 < width
                        && points@[i].1 < height by {
                        if i < before.len() {
                            assert(points@[i] == before[i]);
                        }
                    }
                }
            }
            proof {
                assert(below(points@, k + 1, width) == k + 1);
            }
            x = x + 1;
            if x == width {
                x = 0;
                y = y + 1;
                proof {
                    assert(y * width + x == k + 1) by (nonlinear_arith)
                        requires
                            k == (y - 1) * width + (width - 1),
                            x == 0,
                    ;
                }
            }
        }
        proof {
            lemma_below_len(points@, y * width + x, width);
            if points@.len() < count {
                assert(y * width + x == width * height) by (nonlinear_arith)
                    requires
                        y == height,
                        x == 0,
                ;
            }
        }
    }
    proof {
        assert(drawn.len() < u64::MAX ==> points@ == kept);
    }
    points
}

impl WorldBuilderFunctions {
    /// Gives every cell the province of the nearest point; see
    /// `voronoi_math::apply_voronoi`.
    pub fn apply_voronoi(
        warp_field: &Vec<(usize, usize)>,
        map: &mut WorldMap,
        provinces: &mut Vec<Province>,
        points: &Vec<Point>,
    )
        requires
            old(map).wf(),
            warp_field@.len() == old(map).width * old(map).height,
            distances_fit(warp_field@, points@),
            points@.len() <= old(provinces)@.len(),
            old(provinces)@.len() > 0,
        ensures
            final(map).width == old(map).width,
            final(map).height == old(map).height,
            final(map).terrain == old(map).terrain,
            final(map).wf(),
            forall|c: int|
                0 <= c < final(map).territory@.len() ==> #[trigger] final(map).territory@[c]
                    == nearest(points@, warp_field@[c]),
            final(provinces)@.len() == old(provinces)@.len(),
            forall|k: int|
                0 <= k < final(provinces)@.len() ==> (#[trigger] final(provinces)@[k]).id == old(
                    provinces,
                )@[k].id && final(provinces)@[k].territory@ == cells_owned(
                    final(map).territory@,
                    final(map).width,
                    final(map).territory@.len() as int,
                    k,
                ),
    {
        apply_voronoi(warp_field, map, provinces, points);
    }

    /// The centroid of every province, in order.
    pub fn calculate_centroids(provinces: &Vec<Province>) -> (points: Vec<Point>)
        requires
            forall|k: int| 0 <= k < provinces@.len() ==> (#[trigger] provinces@[k]).sums_fit(),
        ensures
            points@.len() == provinces@.len(),
            forall|k: int|
                0 <= k < provinces@.len() ==> #[trigger] points@[k] == provinces@[k].centroid_spec(),
    {
        calculate_centroids(provinces)
    }
}

} // verus!
