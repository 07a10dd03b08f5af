use vstd::prelude::*;

use crate::services::algorithms::grid::{
    cell_index, grid_neighbors, lemma_cell_index_bound, on_grid,
};

verus! {

/// Scratch space of the grid searches, one entry per cell.
pub struct PathFinder {
    pub g_score: Vec<u32>,
    pub f_score: Vec<u32>,
    pub visited: Vec<bool>,
    pub came_from: Vec<Option<(usize, usize)>>,
}

impl PathFinder {
    /// Every table holds `size` entries.
    pub open spec fn sized(&self, size: nat) -> bool {
        &&& self.g_score@.len() == size
        &&& self.f_score@.len() == size
        &&& self.visited@.len() == size
        &&& self.came_from@.len() == size
    }

    /// Every cell is unreached: infinite scores, unvisited, no parent.
    pub open spec fn cleared(&self) -> bool {
        &&& forall|i: int| 0 <= i < self.g_score@.len() ==> #[trigger] self.g_score@[i] == u32::MAX
        &&& forall|i: int| 0 <= i < self.f_score@.len() ==> #[trigger] self.f_score@[i] == u32::MAX
        &&& forall|i: int| 0 <= i < self.visited@.len() ==> !#[trigger] self.visited@[i]
        &&& forall|i: int| 0 <= i < self.came_from@.len() ==> #[trigger] self.came_from@[i] is None
    }

    /// Tables for a `width` by `height` grid with every cell unreached.
    pub fn new(width: usize, height: usize) -> (pf: PathFinder)
        requires
            width * height <= usize::MAX,
        ensures
            pf.sized((width * height) as nat),
            pf.cleared(),
    {
        let size: usize = width * height;
        let mut g_score: Vec<u32> = Vec::new();
        let mut f_score: Vec<u32> = Vec::new();
        let mut visited: Vec<bool> = Vec::new();
        let mut came_from: Vec<Option<(usize, usize)>> = Vec::new();
        let mut i: usize = 0;
        while i < size
            invariant
                i <= size,
                g_score@.len() == i,
                f_score@.len() == i,
                visited@.len() == i,
                came_from@.len() == i,
                forall|j: int| 0 <= j < i ==> #[trigger] g_score@[j] == u32::MAX,
                forall|j: int| 0 <= j < i ==> #[trigger] f_score@[j] == u32::MAX,
                forall|j: int| 0 <= j < i ==> !#[trigger] visited@[j],
                forall|j: int| 0 <= j < i ==> #[trigger] came_from@[j] is None,
            decreases size - i,
        {
            g_score.push(u32::MAX);
            f_score.push(u32::MAX);
            visited.push(false);
            came_from.push(None);
            i = i + 1;
        }
        PathFinder { g_score, f_score, visited, came_from }
    }

    /// Clears every table and puts the start cell at distance 0.
    pub fn new_generation(&mut self, start: (usize, usize), width: usize)
        requires
            start.1 * width + start.0 < old(self).g_score@.len(),
        ensures
            final(self).g_score@.len() == old(self).g_score@.len(),
            final(self).f_score@.len() == old(self).f_score@.len(),
            final(self).visited@.len() == old(self).visited@.len(),
            final(self).came_from@.len() == old(self).came_from@.len(),
            final(self).g_score@ == Seq::new(
                old(self).g_score@.len(),
                |i: int|
                    if i == cell_index(start, width) {
                        0u32
                    } else {
                        u32::MAX
                    },
            ),
            forall|i: int| 0 <= i < final(self).f_score@.len() ==> #[trigger] final(self).f_score@[i] == u32::MAX,
            forall|i: int| 0 <= i < final(self).visited@.len() ==> !#[trigger] final(self).visited@[i],
            forall|i: int| 0 <= i < final(self).came_from@.len() ==> #[trigger] final(self).came_from@[i] is None,
    {
        let n = self.g_score.len();
        let mut i: usize = 0;
        while i < n
            invariant
                i <= n,
                n == self.g_score@.len(),
                self.g_score@.len() == old(self).g_score@.len(),
                self.f_score@.len() == old(self).f_score@.len(),
                self.visited@.len() == old(self).visited@.len(),
                self.came_from@.len() == old(self).came_from@.len(),
                forall|j: int| 0 <= j < i ==> #[trigger] self.g_score@[j] == u32::MAX,
            decreases n - i,
        {
            self.g_score.set(i, u32::MAX);
            i = i + 1;
        }
        let ghost g1 = self.g_score@;
        let nf = self.f_score.len();
        let mut i: usize = 0;
        while i < nf
            invariant
                i <= nf,
                nf == self.f_score@.len(),
                self.g_score@.len() == old(self).g_score@.len(),
                self.f_score@.len() == old(self).f_score@.len(),
                self.visited@.len() == old(self).visited@.len(),
                self.came_from@.len() == old(self).came_from@.len(),
                self.g_score@ == g1,
                forall|j: int| 0 <= j < i ==> #[trigger] self.f_score@[j] == u32::MAX,
            decreases nf - i,
        {
            self.f_score.set(i, u32::MAX);
            i = i + 1;
        }
        let ghost f1 = self.f_score@;
        let nv = self.visited.len();
        let mut i: usize = 0;
        while i < nv
            invariant
                i <= nv,
                nv == self.visited@.len(),
                self.g_score@.len() == old(self).g_score@.len(),
                self.f_score@.len() == old(self).f_score@.len(),
                self.visited@.len() == old(self).visited@.len(),
                self.came_from@.len() == old(self).came_from@.len(),
                self.g_score@ == g1,
                self.f_score@ == f1,
                forall|j: int| 0 <= j < i ==> !#[trigger] self.visited@[j],
            decreases nv - i,
        {
            self.visited.set(i, false);
            i = i + 1;
        }
        let ghost v1 = self.visited@;
        let nc = self.came_from.len();
        let mut i: usize = 0;
        while i < nc
            invariant
                i <= nc,
                nc == self.came_from@.len(),
                self.g_score@.len() == old(self).g_score@.len(),
                self.f_score@.len() == old(self).f_score@.len(),
                self.visited@.len() == old(self).visited@.len(),
                self.came_from@.len() == old(self).came_from@.len(),
                self.g_score@ == g1,
                self.f_score@ == f1,
                self.visited@ == v1,
                forall|j: int| 0 <= j < i ==> #[trigger] self.came_from@[j] is None,
            decreases nc - i,
        {
            self.came_from.set(i, None);
            i = i + 1;
        }
        let start_idx: usize = PathFinder::point_to_idx(start, width);
        self.g_score.set(start_idx, 0);
        proof {
            assert(self.g_score@ =~= Seq::new(
                n as nat,
                |i: int|
                    if i == cell_index(start, width) {
                        0u32
                    } else {
                        u32::MAX
                    },
            ));
        }
    }

    /// Row-major index of `point` on a grid `width` wide.
    pub fn point_to_idx(point: (usize, usize), width: usize) -> (idx: usize)
        requires
            point.1 * width + point.0 <= usize::MAX,
        ensures
            idx == cell_index(point, width),
    {
        proof {
            assert(point.1 * width <= usize::MAX) by (nonlinear_arith)
                requires
                    point.1 * width + point.0 <= usize::MAX,
            ;
        }
        point.1 * width + point.0
    }

    /// The cells sharing a side with `current`, in the order left, right,
    /// up, down.
    pub fn neighbors(current: (usize, usize), width: usize, height: usize) -> (n: Vec<(usize, usize)>)
        requires
            width > 0,
            height > 0,
        ensures
            n@ == grid_neighbors(current, width, height),
    {
        let mut neighbors: Vec<(usize, usize)> = Vec::new();
        if current.0 > 0 {
            neighbors.push((current.0 - 1, current.1));
        }
        if current.0 < width - 1 {
            neighbors.push((current.0 + 1, current.1));
        }
        if current.1 > 0 {
            neighbors.push((current.0, current.1 - 1));
        }
        if current.1 < height - 1 {
            neighbors.push((current.0, current.1 + 1));
        }
        proof {
            assert(neighbors@ =~= grid_neighbors(current, width, height));
        }
        neighbors
    }
}

} // verus!
