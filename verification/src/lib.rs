//! A search for kana keyboard layouts: a fitness evaluator that
//! scores a candidate layout against corpus n-gram statistics, and
//! an evolutionary engine that evolves a population of layouts under
//! fixed-cell, blank-cell and uniqueness constraints.  All scores
//! and the fitness are integers in millionths, so every run is
//! exactly reproducible from its seed.

use vstd::prelude::*;

pub mod charmap;
pub mod corpus;
pub mod evaluation;
pub mod ga;
pub mod layout;
pub mod numeric;
pub mod rng;
pub mod geometry;
pub mod stdx;
pub mod symbol;

verus! {

/// Number of keyboard rows per layer.
pub const ROWS: usize = 3;

/// Number of columns in rows 0 and 2.
pub const COLS: usize = 10;

/// Number of columns in row 1 (one extra auxiliary key).
pub const COLS_ROW1: usize = 11;

/// Number of shift layers (no shift plus three shift states).
pub const NUM_LAYERS: usize = 4;

/// Keys in one layer: 10 + 11 + 10.
pub const KEYS_PER_LAYER: usize = 31;

/// Columns in the given row.
pub fn cols_for_row(row: usize) -> (n: usize)
    ensures
        n == spec_cols_for_row(row as int),
{
    if row == 1 {
        COLS_ROW1
    } else {
        COLS
    }
}

/// Columns in the given row, as a mathematical function.
pub open spec fn spec_cols_for_row(row: int) -> int {
    if row == 1 {
        11
    } else {
        10
    }
}

} // verus!
