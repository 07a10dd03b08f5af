use vstd::prelude::*;

verus! {

/// A province of the tile board: its centre and the ids of its tiles.
#[derive(Debug)]
pub struct Province {
    pub center: (usize, usize),
    pub tiles_id: Vec<usize>,
}

impl Province {
    /// A province centred on `(x, y)` with no tiles yet.
    pub fn new(x: usize, y: usize) -> (p: Province)
        ensures
            p.center == (x, y),
            p.tiles_id@.len() == 0,
    {
        let center: (usize, usize) = (x, y);
        let tiles_id: Vec<usize> = Vec::new();
        Province { center, tiles_id }
    }
}

} // verus!
