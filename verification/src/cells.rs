use vstd::prelude::*;

verus! {

/// A cell coordinate: row `r` and column `c`. Both are plain indices; equality
/// is structural, and a coordinate never changes once built.
#[derive(Clone, Copy, Debug, Hash, PartialEq, Eq, Structural)]
pub struct CellRef {
    pub r: usize,
    pub c: usize,
}

impl CellRef {
    /// Builds the coordinate with row `r` and column `c`.
    pub fn new(r: usize, c: usize) -> (cr: Self)
        ensures
            cr == (CellRef { r, c }),
    {
        CellRef { r, c }
    }
}

impl Default for CellRef {
    /// The default coordinate is the origin.
    fn default() -> (cr: Self)
        ensures
            cr == (CellRef { r: 0, c: 0 }),
    {
        CellRef { r: 0, c: 0 }
    }
}

} // verus!
