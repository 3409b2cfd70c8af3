//! Identity of one entry of the execution trace.

use vstd::prelude::*;

verus! {

/// One (column, row) slot of the execution trace. Identity and equality are
/// by value; a cell is immutable once created. The row offset may be negative,
/// since constraints are expressed relative to a reference row.
#[derive(Clone, Copy, PartialEq, Eq, Structural, Debug)]
pub struct Cell {
    pub id: u64,
    pub row_offset: i64,
}

} // verus!
