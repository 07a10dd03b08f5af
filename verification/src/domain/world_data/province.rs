use vstd::prelude::*;

use crate::domain::world_data::point::Point;

verus! {

/// A province of the world map: its index and its cells.
#[derive(Debug)]
pub struct Province {
    pub id: usize,
    pub territory: Vec<Point>,
}

/// Sum of the x coordinates of the first `n` cells.
pub open spec fn sum_x(s: Seq<Point>, n: int) -> nat
    decreases n,
{
    if n <= 0 {
        0
    } else {
        sum_x(s, n - 1) + s[n - 1].0 as nat
    }
}

/// Sum of the y coordinates of the first `n` cells.
pub open spec fn sum_y(s: Seq<Point>, n: int) -> nat
    decreases n,
{
    if n <= 0 {
        0
    } else {
        sum_y(s, n - 1) + s[n - 1].1 as nat
    }
}

/// The mean cell of `s`, each coordinate rounded down; the origin for an
/// empty sequence.
pub open spec fn mean_point(s: Seq<Point>) -> Point {
    if s.len() == 0 {
        Point(0, 0)
    } else {
        Point(
            (sum_x(s, s.len() as int) / s.len() as nat) as usize,
            (sum_y(s, s.len() as int) / s.len() as nat) as usize,
        )
    }
}

/// Cells all within `w` by `h` sum to at most `n * (w - 1)` and
/// `n * (h - 1)` over the first `n`.
pub proof fn lemma_sums_bound(s: Seq<Point>, n: int, w: usize, h: usize)
    requires
        0 <= n <= s.len(),
        forall|i: int| 0 <= i < s.len() ==> (#[trigger] s[i]).0 < w && s[i].1 < h,
    ensures
        sum_x(s, n) <= n * (w - 1),
        sum_y(s, n) <= n * (h - 1),
    decreases n,
{
    if n > 0 {
        lemma_sums_bound(s, n - 1, w, h);
        assert(s[n - 1].0 < w && s[n - 1].1 < h);
        assert((n - 1) * (w - 1) + (w - 1) == n * (w - 1)) by (nonlinear_arith);
        assert((n - 1) * (h - 1) + (h - 1) == n * (h - 1)) by (nonlinear_arith);
        assert(sum_y(s, n) == sum_y(s, n - 1) + s[n - 1].1 as nat);
        assert(sum_x(s, n) == sum_x(s, n - 1) + s[n - 1].0 as nat);
    } else {
        assert(n * (w - 1) == 0 && n * (h - 1) == 0) by (nonlinear_arith)
            requires
                n == 0,
        ;
    }
}

/// The centroid is the mean cell: for a territory on a `w` by `h` grid,
/// each coordinate of the centroid is the largest whole number whose
/// multiple of the cell count stays within the coordinates' sum, and the
/// centroid lies on the grid.
pub proof fn law_centroid_is_mean(s: Seq<Point>, w: usize, h: usize)
    requires
        s.len() > 0,
        forall|i: int| 0 <= i < s.len() ==> (#[trigger] s[i]).0 < w && s[i].1 < h,
    ensures
        mean_point(s).0 * s.len() <= sum_x(s, s.len() as int) < (mean_point(s).0 + 1) * s.len(),
        mean_point(s).1 * s.len() <= sum_y(s, s.len() as int) < (mean_point(s).1 + 1) * s.len(),
        mean_point(s).0 < w,
        mean_point(s).1 < h,
{
    let n = s.len() as int;
    let sx = sum_x(s, n);
    let sy = sum_y(s, n);
    lemma_sums_bound(s, n, w, h);
    assert(s[0].0 < w && s[0].1 < h);
    let qx = sx / (n as nat);
    let qy = sy / (n as nat);
    assert(qx <= w - 1 && qy <= h - 1 && qx * n <= sx < (qx + 1) * n && qy * n <= sy < (qy + 1) * n)
        by (nonlinear_arith)
        requires
            n > 0,
            w > 0,
            h > 0,
            sx <= n * (w - 1),
            sy <= n * (h - 1),
            qx == sx / (n as nat),
            qy == sy / (n as nat),
    ;
}

proof fn lemma_sums_mono(s: Seq<Point>, n: int, m: int)
    requires
        0 <= n <= m,
    ensures
        sum_x(s, n) <= sum_x(s, m),
        sum_y(s, n) <= sum_y(s, m),
    decreases m - n,
{
    if n < m {
        lemma_sums_mono(s, n, m - 1);
    }
}

impl Province {
    pub fn new(id: usize) -> (p: Province)
        ensures
            p.id == id,
            p.territory@.len() == 0,
    {
        let territory: Vec<Point> = Vec::new();
        Province { id, territory }
    }

    /// The mean cell of the territory, each coordinate rounded down; the
    /// origin for an empty province.
    pub open spec fn centroid_spec(&self) -> Point {
        mean_point(self.territory@)
    }

    /// The coordinate sums of the territory fit in a `usize`.
    pub open spec fn sums_fit(&self) -> bool {
        &&& sum_x(self.territory@, self.territory@.len() as int) <= usize::MAX
        &&& sum_y(self.territory@, self.territory@.len() as int) <= usize::MAX
    }

    /// The mean cell of the territory, each coordinate rounded down; the
    /// origin for an empty province.
    pub fn centroid(&self) -> (c: Point)
        requires
            self.sums_fit(),
        ensures
            c == self.centroid_spec(),
    {
        let n: usize = self.territory.len();
        if n == 0 {
            return Point(0, 0);
        }
        let mut acc_x: usize = 0;
        let mut acc_y: usize = 0;
        let mut i: usize = 0;
        while i < n
            invariant
                n == self.territory@.len(),
                i <= n,
                self.sums_fit(),
                acc_x == sum_x(self.territory@, i as int),
                acc_y == sum_y(self.territory@, i as int),
            decreases n - i,
        {
            proof {
                lemma_sums_mono(self.territory@, i as int + 1, n as int);
            }
            let point = self.territory[i];
            acc_x = acc_x + point.0;
            acc_y = acc_y + point.1;
            i = i + 1;
        }
        Point(acc_x / n, acc_y / n)
    }
}

} // verus!
