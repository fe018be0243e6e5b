//! Physical geometry of the keyboard: key positions, per-key typing
//! effort, and the per-position cost tables used by the evaluator and
//! by repair/mutation ordering.
//!
//! All costs are integers in fixed-point units: position costs in
//! tenths (a table value of 37 means a cost of 3.7), keystroke
//! weights in thousandths (1000 means a weight of 1.0).

use vstd::prelude::*;

verus! {

use crate::spec_cols_for_row;

/// A key position: shift layer, physical row, physical column.
#[derive(Clone, Copy, Debug, PartialEq, Eq, Structural, Hash)]
pub struct KeyPos {
    /// Shift layer: 0 no shift, 1 and 2 the two middle-finger shift
    /// layers, 3 the ring-finger shift layer.
    pub layer: usize,
    /// Row: 0 top, 1 home, 2 bottom.
    pub row: usize,
    /// Column: 0-9 in rows 0 and 2, 0-10 in row 1.
    pub col: usize,
}

/// A position that actually exists on the keyboard.
pub open spec fn key_pos_wf(p: KeyPos) -> bool {
    &&& p.layer < 4
    &&& p.row < 3
    &&& p.col < spec_cols_for_row(p.row as int)
}

/// Finger assigned to a column: 0 little, 1 ring, 2 middle, 3 index.
pub open spec fn spec_finger(col: int) -> int {
    if col == 0 || col == 9 {
        0
    } else if col == 1 || col == 8 {
        1
    } else if col == 2 || col == 7 {
        2
    } else if 3 <= col <= 6 {
        3
    } else {
        0
    }
}

/// Keystroke weight of a position, in thousandths; 1000 is the
/// weight of a home-row index-finger key on the unshifted layer.
pub open spec fn spec_weight_milli(p: KeyPos) -> int {
    spec_row_weight(p.row as int) * spec_col_weight(p.col as int) * spec_layer_weight(
        p.layer as int,
    )
}

/// Row factor of the keystroke weight, in tenths.
pub open spec fn spec_row_weight(row: int) -> int {
    if row == 1 {
        10
    } else if row == 0 {
        13
    } else if row == 2 {
        12
    } else {
        20
    }
}

/// Column factor of the keystroke weight, in tenths.
pub open spec fn spec_col_weight(col: int) -> int {
    if 3 <= col <= 6 {
        10
    } else if col == 2 || col == 7 {
        11
    } else if col == 1 || col == 8 {
        12
    } else if col == 0 || col == 9 {
        14
    } else {
        15
    }
}

/// Layer factor of the keystroke weight, in tenths.
pub open spec fn spec_layer_weight(layer: int) -> int {
    if layer == 0 {
        10
    } else if layer == 1 {
        20
    } else if layer == 2 {
        22
    } else {
        30
    }
}

impl KeyPos {
    /// Build a key position from its coordinates.
    pub fn new(layer: usize, row: usize, col: usize) -> (p: Self)
        ensures
            p.layer == layer,
            p.row == row,
            p.col == col,
    {
        Self { layer, row, col }
    }

    /// Whether the position is on the home row.
    pub fn is_home(&self) -> (b: bool)
        ensures
            b == (self.row == 1),
    {
        self.row == 1
    }

    /// Whether the position is struck by the left hand (columns 0-4).
    pub fn is_left_hand(&self) -> (b: bool)
        ensures
            b == (self.col < 5),
    {
        self.col < 5
    }

    /// Finger index for the column: 0 little, 1 ring, 2 middle, 3 index.
    pub fn finger(&self) -> (f: usize)
        ensures
            f == spec_finger(self.col as int),
    {
        match self.col {
            0 | 9 => 0,
            1 | 8 => 1,
            2 | 7 => 2,
            3 | 4 | 5 | 6 => 3,
            _ => 0,
        }
    }

    /// Keystroke weight of the position, in thousandths.
    pub fn weight(&self) -> (w: u32)
        ensures
            w == spec_weight_milli(*self),
            1000 <= w <= 9000,
    {
        let row_weight: u32 = match self.row {
            1 => 10,
            0 => 13,
            2 => 12,
            _ => 20,
        };
        let col_weight: u32 = match self.col {
            3 | 4 | 5 | 6 => 10,
            2 | 7 => 11,
            1 | 8 => 12,
            0 | 9 => 14,
            _ => 15,
        };
        let layer_weight: u32 = match self.layer {
            0 => 10,
            1 => 20,
            2 => 22,
            _ => 30,
        };
        proof {
            assert(1000 <= row_weight * col_weight * layer_weight <= 9000) by (nonlinear_arith)
                requires
                    10 <= row_weight <= 20,
                    10 <= col_weight <= 15,
                    10 <= layer_weight <= 30,
            ;
        }
        row_weight * col_weight * layer_weight
    }
}

/// Offset of a row's first cell inside a layer.
pub open spec fn spec_row_base(row: int) -> int {
    if row == 0 {
        0
    } else if row == 1 {
        10
    } else {
        21
    }
}

/// Flat cell index of a position.
pub open spec fn spec_cell_index(layer: int, row: int, col: int) -> int {
    layer * 31 + spec_row_base(row) + col
}

/// Layer of a flat cell index.
pub open spec fn spec_layer_of(p: int) -> int {
    p / 31
}

/// Row of a flat cell index.
pub open spec fn spec_row_of(p: int) -> int {
    if p % 31 < 10 {
        0
    } else if p % 31 < 21 {
        1
    } else {
        2
    }
}

/// Column of a flat cell index.
pub open spec fn spec_col_of(p: int) -> int {
    (p % 31) - spec_row_base(spec_row_of(p))
}

/// The position of a flat cell index.
pub open spec fn spec_pos_of(p: int) -> KeyPos {
    KeyPos {
        layer: spec_layer_of(p) as usize,
        row: spec_row_of(p) as usize,
        col: spec_col_of(p) as usize,
    }
}

/// Cell indexing and position decomposition invert each other.
pub proof fn lemma_cell_index_of_pos(p: int)
    requires
        0 <= p < 124,
    ensures
        key_pos_wf(spec_pos_of(p)),
        spec_cell_index(spec_layer_of(p), spec_row_of(p), spec_col_of(p)) == p,
{
}

/// A well-formed position round-trips through its flat index.
pub proof fn lemma_pos_of_cell_index(layer: int, row: int, col: int)
    requires
        0 <= layer < 4,
        0 <= row < 3,
        0 <= col < spec_cols_for_row(row),
    ensures
        0 <= spec_cell_index(layer, row, col) < 124,
        spec_layer_of(spec_cell_index(layer, row, col)) == layer,
        spec_row_of(spec_cell_index(layer, row, col)) == row,
        spec_col_of(spec_cell_index(layer, row, col)) == col,
{
}

/// Flat cell index of a position.
pub fn cell_index(layer: usize, row: usize, col: usize) -> (p: usize)
    requires
        layer < 4,
        row < 3,
        col < spec_cols_for_row(row as int),
    ensures
        p == spec_cell_index(layer as int, row as int, col as int),
        p < 124,
{
    let base: usize = if row == 0 {
        0
    } else if row == 1 {
        10
    } else {
        21
    };
    layer * 31 + base + col
}

/// The position of a flat cell index.
pub fn pos_of_cell(p: usize) -> (kp: KeyPos)
    requires
        p < 124,
    ensures
        kp == spec_pos_of(p as int),
        key_pos_wf(kp),
        spec_cell_index(kp.layer as int, kp.row as int, kp.col as int) == p,
{
    proof {
        lemma_cell_index_of_pos(p as int);
    }
    let layer = p / 31;
    let within = p % 31;
    let (row, col): (usize, usize) = if within < 10 {
        (0, within)
    } else if within < 21 {
        (1, within - 10)
    } else {
        (2, within - 21)
    };
    KeyPos { layer, row, col }
}

/// Whether a cell is fixed: its content is hardcoded and never
/// touched by the search.
pub open spec fn spec_is_fixed(layer: int, row: int, col: int) -> bool {
    ||| (layer == 0 && row == 1 && (col == 2 || col == 7 || col == 10))
    ||| (layer == 0 && row == 2 && (col == 7 || col == 8 || col == 9))
    ||| (layer == 1 && row == 1 && col == 10)
    ||| (layer == 3 && row == 1 && col == 10)
}

/// Whether a cell is forced blank by a physical conflict with the
/// shift trigger of its layer.
pub open spec fn spec_is_blank(layer: int, row: int, col: int) -> bool {
    ||| (layer == 2 && row == 1 && col == 10)
    ||| (layer == 3 && col == 9)
}

/// Whether a flat cell index is fixed.
pub open spec fn spec_is_fixed_idx(p: int) -> bool {
    spec_is_fixed(spec_layer_of(p), spec_row_of(p), spec_col_of(p))
}

/// Whether a flat cell index is forced blank.
pub open spec fn spec_is_blank_idx(p: int) -> bool {
    spec_is_blank(spec_layer_of(p), spec_row_of(p), spec_col_of(p))
}

/// Whether a flat cell index is free: available to the search.
pub open spec fn spec_is_free_idx(p: int) -> bool {
    !spec_is_fixed_idx(p) && !spec_is_blank_idx(p)
}

/// Position cost of a cell, in tenths; 0 marks fixed or forced-blank
/// positions and the unused padding column.
pub open spec fn spec_position_cost_tenths(layer: int, row: int, col: int) -> int {
    if layer == 0 {
        if row == 0 {
            spec_pick10(col, 37, 20, 20, 24, 35, 39, 24, 20, 20, 37)
        } else if row == 1 {
            spec_pick10(col, 15, 10, 0, 10, 24, 24, 10, 0, 10, 15)
        } else {
            spec_pick10(col, 37, 28, 24, 20, 39, 30, 20, 0, 0, 0)
        }
    } else if layer == 1 {
        if row == 0 {
            spec_pick10(col, 109, 58, 58, 71, 100, 112, 71, 174, 116, 217)
        } else if row == 1 {
            if col == 10 {
                0
            } else {
                spec_pick10(col, 44, 29, 29, 29, 71, 71, 29, 58, 58, 87)
            }
        } else {
            spec_pick10(col, 109, 82, 71, 58, 112, 87, 58, 213, 164, 217)
        }
    } else if layer == 2 {
        if row == 0 {
            spec_pick10(col, 217, 116, 174, 71, 100, 112, 71, 58, 58, 109)
        } else if row == 1 {
            if col == 10 {
                0
            } else {
                spec_pick10(col, 87, 58, 58, 29, 71, 71, 29, 29, 29, 44)
            }
        } else {
            spec_pick10(col, 217, 164, 213, 58, 112, 87, 58, 71, 82, 109)
        }
    } else {
        if row == 0 {
            spec_pick10(col, 808, 432, 432, 529, 748, 837, 529, 432, 432, 0)
        } else if row == 1 {
            spec_pick10(col, 324, 216, 216, 216, 529, 529, 216, 216, 216, 0)
        } else {
            spec_pick10(col, 808, 611, 529, 432, 837, 648, 432, 529, 611, 0)
        }
    }
}

/// Pick the entry of a ten-element row, 0 past the end.
pub open spec fn spec_pick10(
    col: int,
    a0: int,
    a1: int,
    a2: int,
    a3: int,
    a4: int,
    a5: int,
    a6: int,
    a7: int,
    a8: int,
    a9: int,
) -> int {
    if col == 0 {
        a0
    } else if col == 1 {
        a1
    } else if col == 2 {
        a2
    } else if col == 3 {
        a3
    } else if col == 4 {
        a4
    } else if col == 5 {
        a5
    } else if col == 6 {
        a6
    } else if col == 7 {
        a7
    } else if col == 8 {
        a8
    } else if col == 9 {
        a9
    } else {
        0
    }
}

/// Pick the entry of a ten-element cost row, 0 past the end.
fn pick10(
    col: usize,
    a0: u32,
    a1: u32,
    a2: u32,
    a3: u32,
    a4: u32,
    a5: u32,
    a6: u32,
    a7: u32,
    a8: u32,
    a9: u32,
) -> (c: u32)
    ensures
        c == spec_pick10(
            col as int,
            a0 as int,
            a1 as int,
            a2 as int,
            a3 as int,
            a4 as int,
            a5 as int,
            a6 as int,
            a7 as int,
            a8 as int,
            a9 as int,
        ),
{
    match col {
        0 => a0,
        1 => a1,
        2 => a2,
        3 => a3,
        4 => a4,
        5 => a5,
        6 => a6,
        7 => a7,
        8 => a8,
        9 => a9,
        _ => 0,
    }
}

/// Position cost of a cell, in tenths of the table unit.
pub fn get_position_cost(layer: usize, row: usize, col: usize) -> (c: u32)
    requires
        row < 3,
        col < 11,
    ensures
        layer < 4 ==> c == spec_position_cost_tenths(layer as int, row as int, col as int),
        layer >= 4 ==> c == 0,
        c <= 837,
{
    if layer == 0 {
        if row == 0 {
            pick10(col, 37, 20, 20, 24, 35, 39, 24, 20, 20, 37)
        } else if row == 1 {
            pick10(col, 15, 10, 0, 10, 24, 24, 10, 0, 10, 15)
        } else {
            pick10(col, 37, 28, 24, 20, 39, 30, 20, 0, 0, 0)
        }
    } else if layer == 1 {
        if row == 0 {
            pick10(col, 109, 58, 58, 71, 100, 112, 71, 174, 116, 217)
        } else if row == 1 {
            if col == 10 {
                0
            } else {
                pick10(col, 44, 29, 29, 29, 71, 71, 29, 58, 58, 87)
            }
        } else {
            pick10(col, 109, 82, 71, 58, 112, 87, 58, 213, 164, 217)
        }
    } else if layer == 2 {
        if row == 0 {
            pick10(col, 217, 116, 174, 71, 100, 112, 71, 58, 58, 109)
        } else if row == 1 {
            if col == 10 {
                0
            } else {
                pick10(col, 87, 58, 58, 29, 71, 71, 29, 29, 29, 44)
            }
        } else {
            pick10(col, 217, 164, 213, 58, 112, 87, 58, 71, 82, 109)
        }
    } else if layer == 3 {
        if row == 0 {
            pick10(col, 808, 432, 432, 529, 748, 837, 529, 432, 432, 0)
        } else if row == 1 {
            pick10(col, 324, 216, 216, 216, 529, 529, 216, 216, 216, 0)
        } else {
            pick10(col, 808, 611, 529, 432, 837, 648, 432, 529, 611, 0)
        }
    } else {
        0
    }
}

/// Position cost of a flat cell index, in tenths.
pub fn position_cost_of_cell(p: usize) -> (c: u32)
    requires
        p < 124,
    ensures
        c == spec_position_cost_tenths(spec_layer_of(p as int), spec_row_of(p as int), spec_col_of(
            p as int,
        )),
        c <= 837,
{
    let kp = pos_of_cell(p);
    get_position_cost(kp.layer, kp.row, kp.col)
}

/// The keystroke weight of any position is between 1.0 and 9.0.
pub proof fn lemma_weight_milli_range(p: KeyPos)
    ensures
        1000 <= spec_weight_milli(p) <= 9000,
{
    assert(1000 <= spec_row_weight(p.row as int) * spec_col_weight(p.col as int)
        * spec_layer_weight(p.layer as int) <= 9000) by (nonlinear_arith)
        requires
            10 <= spec_row_weight(p.row as int) <= 20,
            10 <= spec_col_weight(p.col as int) <= 15,
            10 <= spec_layer_weight(p.layer as int) <= 30,
    ;
}
/// Number of free cells below `p`.
pub open spec fn spec_free_count(p: int) -> int
    decreases p,
{
    if p <= 0 {
        0
    } else {
        spec_free_count(p - 1) + if spec_is_free_idx(p - 1) {
            1int
        } else {
            0int
        }
    }
}

/// There are 112 free cells.
pub proof fn lemma_free_count_value()
    ensures
        spec_free_count(124) == 112,
{
    assert(spec_free_count(0) == 0);
    assert(spec_free_count(1) == 1);
    assert(spec_free_count(2) == 2);
    assert(spec_free_count(3) == 3);
    assert(spec_free_count(4) == 4);
    assert(spec_free_count(5) == 5);
    assert(spec_free_count(6) == 6);
    assert(spec_free_count(7) == 7);
    assert(spec_free_count(8) == 8);
    assert(spec_free_count(9) == 9);
    assert(spec_free_count(10) == 10);
    assert(spec_free_count(11) == 11);
    assert(spec_free_count(12) == 12);
    assert(spec_free_count(13) == 12);
    assert(spec_free_count(14) == 13);
    assert(spec_free_count(15) == 14);
    assert(spec_free_count(16) == 15);
    assert(spec_free_count(17) == 16);
    assert(spec_free_count(18) == 16);
    assert(spec_free_count(19) == 17);
    assert(spec_free_count(20) == 18);
    assert(spec_free_count(21) == 18);
    assert(spec_free_count(22) == 19);
    assert(spec_free_count(23) == 20);
    assert(spec_free_count(24) == 21);
    assert(spec_free_count(25) == 22);
    assert(spec_free_count(26) == 23);
    assert(spec_free_count(27) == 24);
    assert(spec_free_count(28) == 25);
    assert(spec_free_count(29) == 25);
    assert(spec_free_count(30) == 25);
    assert(spec_free_count(31) == 25);
    assert(spec_free_count(32) == 26);
    assert(spec_free_count(33) == 27);
    assert(spec_free_count(34) == 28);
    assert(spec_free_count(35) == 29);
    assert(spec_free_count(36) == 30);
    assert(spec_free_count(37) == 31);
    assert(spec_free_count(38) == 32);
    assert(spec_free_count(39) == 33);
    assert(spec_free_count(40) == 34);
    assert(spec_free_count(41) == 35);
    assert(spec_free_count(42) == 36);
    assert(spec_free_count(43) == 37);
    assert(spec_free_count(44) == 38);
    assert(spec_free_count(45) == 39);
    assert(spec_free_count(46) == 40);
    assert(spec_free_count(47) == 41);
    assert(spec_free_count(48) == 42);
    assert(spec_free_count(49) == 43);
    assert(spec_free_count(50) == 44);
    assert(spec_free_count(51) == 45);
    assert(spec_free_count(52) == 45);
    assert(spec_free_count(53) == 46);
    assert(spec_free_count(54) == 47);
    assert(spec_free_count(55) == 48);
    assert(spec_free_count(56) == 49);
    assert(spec_free_count(57) == 50);
    assert(spec_free_count(58) == 51);
    assert(spec_free_count(59) == 52);
    assert(spec_free_count(60) == 53);
    assert(spec_free_count(61) == 54);
    assert(spec_free_count(62) == 55);
    assert(spec_free_count(63) == 56);
    assert(spec_free_count(64) == 57);
    assert(spec_free_count(65) == 58);
    assert(spec_free_count(66) == 59);
    assert(spec_free_count(67) == 60);
    assert(spec_free_count(68) == 61);
    assert(spec_free_count(69) == 62);
    assert(spec_free_count(70) == 63);
    assert(spec_free_count(71) == 64);
    assert(spec_free_count(72) == 65);
    assert(spec_free_count(73) == 66);
    assert(spec_free_count(74) == 67);
    assert(spec_free_count(75) == 68);
    assert(spec_free_count(76) == 69);
    assert(spec_free_count(77) == 70);
    assert(spec_free_count(78) == 71);
    assert(spec_free_count(79) == 72);
    assert(spec_free_count(80) == 73);
    assert(spec_free_count(81) == 74);
    assert(spec_free_count(82) == 75);
    assert(spec_free_count(83) == 75);
    assert(spec_free_count(84) == 76);
    assert(spec_free_count(85) == 77);
    assert(spec_free_count(86) == 78);
    assert(spec_free_count(87) == 79);
    assert(spec_free_count(88) == 80);
    assert(spec_free_count(89) == 81);
    assert(spec_free_count(90) == 82);
    assert(spec_free_count(91) == 83);
    assert(spec_free_count(92) == 84);
    assert(spec_free_count(93) == 85);
    assert(spec_free_count(94) == 86);
    assert(spec_free_count(95) == 87);
    assert(spec_free_count(96) == 88);
    assert(spec_free_count(97) == 89);
    assert(spec_free_count(98) == 90);
    assert(spec_free_count(99) == 91);
    assert(spec_free_count(100) == 92);
    assert(spec_free_count(101) == 93);
    assert(spec_free_count(102) == 94);
    assert(spec_free_count(103) == 94);
    assert(spec_free_count(104) == 95);
    assert(spec_free_count(105) == 96);
    assert(spec_free_count(106) == 97);
    assert(spec_free_count(107) == 98);
    assert(spec_free_count(108) == 99);
    assert(spec_free_count(109) == 100);
    assert(spec_free_count(110) == 101);
    assert(spec_free_count(111) == 102);
    assert(spec_free_count(112) == 103);
    assert(spec_free_count(113) == 103);
    assert(spec_free_count(114) == 103);
    assert(spec_free_count(115) == 104);
    assert(spec_free_count(116) == 105);
    assert(spec_free_count(117) == 106);
    assert(spec_free_count(118) == 107);
    assert(spec_free_count(119) == 108);
    assert(spec_free_count(120) == 109);
    assert(spec_free_count(121) == 110);
    assert(spec_free_count(122) == 111);
    assert(spec_free_count(123) == 112);
    assert(spec_free_count(124) == 112);
}

/// The free-cell count never decreases with the bound.
pub proof fn lemma_free_count_mono(p: int, q: int)
    requires
        0 <= p <= q,
    ensures
        spec_free_count(p) <= spec_free_count(q),
    decreases q - p,
{
    if p < q {
        lemma_free_count_mono(p, q - 1);
    }
}

} // verus!
