use vstd::prelude::*;

verus! {

/// Row-major index of cell `p` on a grid `width` wide.
pub open spec fn cell_index(p: (usize, usize), width: usize) -> int {
    p.1 * width + p.0
}

/// The cell that index `i` stands for on a grid `width` wide.
pub open spec fn cell_of(i: int, width: usize) -> (usize, usize) {
    ((i % (width as int)) as usize, (i / (width as int)) as usize)
}

/// An on-grid cell is the cell of its own index.
pub proof fn lemma_cell_of_index(p: (usize, usize), width: usize, height: usize)
    requires
        on_grid(p, width, height),
    ensures
        cell_of(cell_index(p, width), width) == p,
{
    let i = cell_index(p, width);
    assert(i % (width as int) == p.0 && i / (width as int) == p.1) by (nonlinear_arith)
        requires
            i == p.1 * width + p.0,
            p.0 < width,
    ;
}

/// `p` lies on a `width` by `height` grid.
pub open spec fn on_grid(p: (usize, usize), width: usize, height: usize) -> bool {
    p.0 < width && p.1 < height
}

/// `a` and `b` share a side.
pub open spec fn adjacent(a: (usize, usize), b: (usize, usize)) -> bool {
    (a.1 == b.1 && (a.0 + 1 == b.0 || b.0 + 1 == a.0)) || (a.0 == b.0 && (a.1 + 1 == b.1 || b.1
        + 1 == a.1))
}

/// The four-neighbourhood of `c` that lies on the grid, in the order
/// left, right, up, down.
pub open spec fn grid_neighbors(c: (usize, usize), width: usize, height: usize) -> Seq<(usize, usize)> {
    let l: Seq<(usize, usize)> = if c.0 > 0 {
        seq![((c.0 - 1) as usize, c.1)]
    } else {
        seq![]
    };
    let r: Seq<(usize, usize)> = if c.0 + 1 < width {
        seq![((c.0 + 1) as usize, c.1)]
    } else {
        seq![]
    };
    let u: Seq<(usize, usize)> = if c.1 > 0 {
        seq![(c.0, (c.1 - 1) as usize)]
    } else {
        seq![]
    };
    let d: Seq<(usize, usize)> = if c.1 + 1 < height {
        seq![(c.0, (c.1 + 1) as usize)]
    } else {
        seq![]
    };
    l + r + u + d
}

/// Two distinct cells of the grid have distinct indices.
pub proof fn lemma_cell_index_injective(a: (usize, usize), b: (usize, usize), width: usize, height: usize)
    requires
        on_grid(a, width, height),
        on_grid(b, width, height),
        a != b,
    ensures
        cell_index(a, width) != cell_index(b, width),
{
    if a.1 == b.1 {
    } else if a.1 < b.1 {
        assert(a.1 * width + width <= b.1 * width) by (nonlinear_arith)
            requires
                a.1 < b.1,
        ;
    } else {
        assert(b.1 * width + width <= a.1 * width) by (nonlinear_arith)
            requires
                b.1 < a.1,
        ;
    }
}

/// A cell of the grid has an index below `width * height`.
pub proof fn lemma_cell_index_bound(a: (usize, usize), width: usize, height: usize)
    requires
        on_grid(a, width, height),
    ensures
        0 <= cell_index(a, width) < width * height,
{
    assert(a.1 * width + width <= height * width) by (nonlinear_arith)
        requires
            a.1 < height,
    ;
    assert(height * width == width * height) by (nonlinear_arith);
}

/// The cost of a step to a neighbouring cell on level ground.
pub const MOVE_COST: u32 = 10;

/// Elevations are counted in millionths; every full this-much of height
/// difference adds one to the cost of a step.
pub const ELEVATION_PENALTY_STEP: u32 = 10_000;

/// The cost of a step between cells at elevations `from` and `to`.
pub open spec fn step_cost(from: u32, to: u32) -> nat {
    MOVE_COST as nat + (if from >= to {
        from - to
    } else {
        to - from
    }) as nat / (ELEVATION_PENALTY_STEP as nat)
}

/// The cost of a step between cells at elevations `from` and `to`.
pub fn move_cost(from: u32, to: u32) -> (c: u32)
    ensures
        c == step_cost(from, to),
        c >= MOVE_COST,
{
    let diff: u32 = if from >= to {
        from - to
    } else {
        to - from
    };
    MOVE_COST + diff / ELEVATION_PENALTY_STEP
}

/// Every on-grid cell next to `c` is among its listed neighbours.
pub proof fn lemma_adjacent_listed(c: (usize, usize), v: (usize, usize), width: usize, height: usize)
    requires
        on_grid(c, width, height),
        on_grid(v, width, height),
        adjacent(c, v),
    ensures
        grid_neighbors(c, width, height).contains(v),
{
    let s = grid_neighbors(c, width, height);
    let l: Seq<(usize, usize)> = if c.0 > 0 {
        seq![((c.0 - 1) as usize, c.1)]
    } else {
        seq![]
    };
    let r: Seq<(usize, usize)> = if c.0 + 1 < width {
        seq![((c.0 + 1) as usize, c.1)]
    } else {
        seq![]
    };
    let u: Seq<(usize, usize)> = if c.1 > 0 {
        seq![(c.0, (c.1 - 1) as usize)]
    } else {
        seq![]
    };
    let d: Seq<(usize, usize)> = if c.1 + 1 < height {
        seq![(c.0, (c.1 + 1) as usize)]
    } else {
        seq![]
    };
    assert(s == l + r + u + d);
    if v.1 == c.1 && v.0 + 1 == c.0 {
        assert(s[0] == v);
    } else if v.1 == c.1 && c.0 + 1 == v.0 {
        assert(s[l.len() as int] == v);
    } else if v.0 == c.0 && v.1 + 1 == c.1 {
        assert(s[(l.len() + r.len()) as int] == v);
    } else {
        assert(s[(l.len() + r.len() + u.len()) as int] == v);
    }
}

/// Every listed neighbour of an on-grid cell is on the grid and next to it.
pub proof fn lemma_listed_adjacent(c: (usize, usize), width: usize, height: usize, k: int)
    requires
        on_grid(c, width, height),
        0 <= k < grid_neighbors(c, width, height).len(),
    ensures
        on_grid(grid_neighbors(c, width, height)[k], width, height),
        adjacent(c, grid_neighbors(c, width, height)[k]),
{
}

/// Neighbourhood is symmetric: on the grid, `q` is listed among the
/// neighbours of `p` exactly when `p` is listed among those of `q`.
pub proof fn law_neighbors_symmetric(p: (usize, usize), q: (usize, usize), width: usize, height: usize)
    requires
        on_grid(p, width, height),
        on_grid(q, width, height),
    ensures
        grid_neighbors(p, width, height).contains(q) <==> grid_neighbors(q, width, height).contains(p),
{
    if grid_neighbors(p, width, height).contains(q) {
        let k = choose|k: int| 0 <= k < grid_neighbors(p, width, height).len() && grid_neighbors(p, width, height)[k] == q;
        lemma_listed_adjacent(p, width, height, k);
        lemma_adjacent_listed(q, p, width, height);
    }
    if grid_neighbors(q, width, height).contains(p) {
        let k = choose|k: int| 0 <= k < grid_neighbors(q, width, height).len() && grid_neighbors(q, width, height)[k] == p;
        lemma_listed_adjacent(q, width, height, k);
        lemma_adjacent_listed(p, q, width, height);
    }
}

} // verus!
