use vstd::prelude::*;

use crate::domain::geography::area::Area;

verus! {

/// The world grid, stored row by row: cell `(x, y)` is at `y * width + x`.
/// `terrain` holds each cell's heights, `territory` its province index.
#[derive(Debug)]
pub struct WorldMap {
    pub width: usize,
    pub height: usize,
    pub terrain: Vec<Area>,
    pub territory: Vec<usize>,
}

impl WorldMap {
    /// The grid's vectors hold one entry per cell.
    pub open spec fn wf(&self) -> bool {
        &&& self.width * self.height <= usize::MAX
        &&& self.terrain@.len() == self.width * self.height
        &&& self.territory@.len() == self.width * self.height
    }

    pub fn new(width: usize, height: usize, terrain: Vec<Area>, territory: Vec<usize>) -> (m: WorldMap)
        ensures
            m.width == width,
            m.height == height,
            m.terrain == terrain,
            m.territory == territory,
    {
        WorldMap { width, height, terrain, territory }
    }

    /// The province of cell `(x, y)`.
    pub open spec fn province_at(&self, x: int, y: int) -> usize {
        self.territory@[y * self.width + x]
    }

    /// Cell `(x, y)`, away from the map's edge, borders a cell of another
    /// province on one of its four sides.
    pub fn is_province_border(&self, x: usize, y: usize) -> (b: bool)
        requires
            self.wf(),
            0 < x && x + 1 < self.width,
            0 < y && y + 1 < self.height,
        ensures
            b == (self.province_at(x as int, y as int) != self.province_at(x as int, y - 1)
                || self.province_at(x as int, y as int) != self.province_at(x - 1, y as int)
                || self.province_at(x as int, y as int) != self.province_at(x as int, y + 1)
                || self.province_at(x as int, y as int) != self.province_at(x + 1, y as int)),
    {
        let w = self.width;
        proof {
            assert((y + 1) * w + w <= self.height * w) by (nonlinear_arith)
                requires
                    y + 1 < self.height,
            ;
            assert(self.height * w == w * self.height) by (nonlinear_arith);
            assert((y + 1) * w == y * w + w) by (nonlinear_arith);
            assert((y - 1) * w == y * w - w) by (nonlinear_arith);
        }
        let here = self.territory[y * w + x];
        here != self.territory[(y - 1) * w + x] || here != self.territory[y * w + x - 1]
            || here != self.territory[(y + 1) * w + x] || here != self.territory[y * w + x + 1]
    }

}

} // verus!
