use vstd::prelude::*;
use crate::bits::bit;

verus! {

/// Number of columns.
pub const WIDTH: u8 = 7;

/// Number of rows.
pub const HEIGHT: u8 = 6;

/// One bit in each row at the lowest position of that row (bits 0, 7, ..., 35).
pub const COL_MASK: u64 = 0b0000001_0000001_0000001_0000001_0000001_0000001;

/// The 42 cells of the grid: bits 0 to 41.
pub const FULL_BOARD: u64 = 0b1111111_1111111_1111111_1111111_1111111_1111111;

/// Positions whose three right-hand neighbours in the same row exist.
pub const MASK_RIGHT: u64 = 0b0001111_0001111_0001111_0001111_0001111_0001111;

/// Positions whose three left-hand neighbours in the same row exist.
pub const MASK_LEFT: u64 = 0b1111000_1111000_1111000_1111000_1111000_1111000;

/// Bit index of the cell in column `col` (1 to 7) and row `row` (0, the
/// bottom, to 5, the top). Rows are groups of seven consecutive bits, and
/// column 1 holds the highest bit of each row.
pub open spec fn cell(col: int, row: int) -> int {
    (7 - col) + 7 * row
}

pub open spec fn on_grid(col: int, row: int) -> bool {
    1 <= col <= 7 && 0 <= row < 6
}

pub proof fn lemma_full_board_bit(i: int)
    ensures
        bit(FULL_BOARD, i) == (0 <= i < 42),
{
    if 0 <= i < 64 {
        let p = i as u64;
        assert(p < 64 ==> (((0b1111111_1111111_1111111_1111111_1111111_1111111u64 >> p) & 1u64
            == 1u64) <==> p < 42)) by (bit_vector);
    }
}

/// `COL_MASK << s` is the set of bits of one column of the grid.
pub proof fn lemma_column_mask_bit(s: u64, i: int)
    requires
        s < 7,
    ensures
        bit(COL_MASK << s, i) == (0 <= i < 42 && i % 7 == s),
{
    if 0 <= i < 64 {
        let p = i as u64;
        assert(s < 7 && p < 64 ==> ((((0b0000001_0000001_0000001_0000001_0000001_0000001u64
            << s) >> p) & 1u64 == 1u64) <==> (p < 42 && p % 7 == s))) by (bit_vector);
    }
}

pub proof fn lemma_mask_right_bit(i: int)
    ensures
        bit(MASK_RIGHT, i) == (0 <= i < 42 && i % 7 <= 3),
{
    if 0 <= i < 64 {
        let p = i as u64;
        assert(p < 64 ==> (((0b0001111_0001111_0001111_0001111_0001111_0001111u64 >> p) & 1u64
            == 1u64) <==> (p < 42 && p % 7 <= 3))) by (bit_vector);
    }
}

pub proof fn lemma_mask_left_bit(i: int)
    ensures
        bit(MASK_LEFT, i) == (0 <= i < 42 && i % 7 >= 3),
{
    if 0 <= i < 64 {
        let p = i as u64;
        assert(p < 64 ==> (((0b1111000_1111000_1111000_1111000_1111000_1111000u64 >> p) & 1u64
            == 1u64) <==> (p < 42 && p % 7 >= 3))) by (bit_vector);
    }
}

} // verus!
