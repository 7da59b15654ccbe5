//! The state of one cell of a board.

use vstd::prelude::*;

verus! {

/// A cell is painted, blank, or not known yet.
#[derive(Clone, Copy, Debug, PartialEq, Eq, Structural)]
pub enum Cell {
    Painted,
    Blank,
    Unknown,
}

} // verus!
