use vstd::prelude::*;

verus! {

/// One grid position of a nonogram board: either still unknown, or decided
/// to be filled (`Determined(true)`) or blank (`Determined(false)`).
#[derive(Clone, Copy, Debug, PartialEq, Eq, Structural)]
pub enum Cell {
    Unknown,
    Determined(bool),
}

impl Default for Cell {
    fn default() -> (r: Cell)
        ensures
            r == Cell::Unknown,
    {
        Cell::Unknown
    }
}

} // verus!
