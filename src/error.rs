use vstd::prelude::*;

verus! {

/// Where a runtime error happened: the cursor's cell, the program position
/// (in characters), and that position's 1-based line and column.
#[derive(Clone, Copy, Debug, PartialEq, Eq, Structural)]
pub struct Location {
    pub cell: usize,
    pub pos: usize,
    pub line: usize,
    pub column: usize,
}

/// Why a program was rejected or stopped.
#[derive(Clone, Copy, Debug, PartialEq, Eq, Structural)]
pub enum ExecError {
    /// A loop-close at `pos` with no loop-open before it to pair with.
    UnmatchedClose { pos: usize },
    /// At least one loop-open is never closed.
    UnmatchedOpen,
    /// Increment of a cell holding 255 under the fail-fast policy.
    CellOverflow(Location),
    /// Decrement of a cell holding 0 under the fail-fast policy.
    CellUnderflow(Location),
    /// Move right from the last cell of the tape.
    CursorOverflow(Location),
    /// Move left from cell 0.
    CursorUnderflow(Location),
    /// The input source was closed or failed.
    InputFailure(Location),
}

} // verus!
