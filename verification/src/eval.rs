use vstd::prelude::*;
use crate::geometry::{COL_MASK, lemma_column_mask_bit};
use crate::bits::{bit, lemma_bit_and, lemma_bit_shr, lemma_nonzero_iff_bit};
use crate::game::Board;

verus! {

/// Number of set bits of `x`.
pub open spec fn pop_count(x: u64) -> nat
    decreases x,
{
    if x == 0 {
        0
    } else {
        (x % 2) as nat + pop_count(x / 2)
    }
}

/// Number of set bits of `x`, one bit at a time from the lowest.
fn count_ones(x: u64) -> (r: u32)
    ensures
        r == pop_count(x),
{
    let mut v: u64 = x;
    let mut n: u32 = 0;
    let ghost mut i: u64 = 0;
    assert(x >> 0u64 == x) by (bit_vector);
    while v != 0
        invariant
            n + pop_count(v) == pop_count(x),
            n <= i <= 64,
            i < 64 ==> v == x >> i,
            i == 64 ==> v == 0,
        decreases v,
    {
        proof {
            assert(v & 1 == v % 2 && v >> 1 == v / 2) by (bit_vector);
            if i < 63 {
                assert(x >> i >> 1u64 == x >> ((i + 1) as u64)) by (bit_vector)
                    requires
                        i < 63,
                ;
            } else {
                assert(x >> 63u64 >> 1u64 == 0) by (bit_vector);
            }
        }
        let low: u64 = v & 1;
        n = n + (low as u32);
        v = v >> 1;
        proof {
            i = (i + 1) as u64;
        }
    }
    n
}

/// Weight of column `c` (0 to 6) in the evaluation.
pub open spec fn column_weight(c: int) -> int {
    if c == 3 {
        5
    } else if c == 2 || c == 4 {
        3
    } else if c == 1 || c == 5 {
        2
    } else {
        1
    }
}

/// The bits of column `c` (0 to 6); column `c` here is column `c + 1` of
/// `Board::make_move`.
pub open spec fn column_bits(c: int) -> u64 {
    COL_MASK << ((6 - c) as u64)
}

/// Weighted count of the discs of `x` in the columns `0..n`.
pub open spec fn weighted_count(x: u64, n: int) -> int
    decreases n,
{
    if n <= 0 {
        0
    } else {
        weighted_count(x, n - 1) + pop_count(x & column_bits(n - 1)) * column_weight(n - 1)
    }
}

/// Static evaluation from the side of the player to move: its weighted
/// disc count minus the opponent's.
pub open spec fn evaluation(b: Board) -> int {
    let me = if b.red_turn { b.red } else { b.yellow };
    let opp = if b.red_turn { b.yellow } else { b.red };
    weighted_count(me, 7) - weighted_count(opp, 7)
}

/// Sum of the weights of the columns `0..n`.
pub open spec fn weight_sum(n: int) -> int
    decreases n,
{
    if n <= 0 {
        0
    } else {
        weight_sum(n - 1) + column_weight(n - 1)
    }
}

proof fn lemma_weighted_count_bound(x: u64, n: int)
    requires
        0 <= n <= 7,
    ensures
        0 <= weighted_count(x, n) <= 6 * weight_sum(n),
        0 <= weight_sum(n) <= 5 * n,
    decreases n,
{
    if n > 0 {
        lemma_weighted_count_bound(x, n - 1);
        let p = pop_count(x & column_bits(n - 1)) as int;
        let w = column_weight(n - 1);
        lemma_pop_count_and_le(x, column_bits(n - 1));
        lemma_column_shift_count((6 - (n - 1)) as u64);
        assert(0 <= p * w <= 6 * w) by (nonlinear_arith)
            requires
                0 <= p <= 6,
                1 <= w <= 5,
        ;
    }
}

pub proof fn lemma_evaluation_bound(b: Board)
    ensures
        -102 <= evaluation(b) <= 102,
{
    lemma_weighted_count_bound(b.red, 7);
    lemma_weighted_count_bound(b.yellow, 7);
    reveal_with_fuel(weight_sum, 8);
}

/// Static evaluation of `board` for the player to move (see `evaluation`).
pub fn evaluate(board: &Board) -> (r: i32)
    ensures
        r == evaluation(*board),
{
    let mut my_score: i32 = 0;
    let mut opp_score: i32 = 0;
    let my_board = if board.red_turn { board.red } else { board.yellow };
    let opp_board = if board.red_turn { board.yellow } else { board.red };
    let weights: [i32; 7] = [1, 2, 3, 5, 3, 2, 1];
    for col in 0..7u64
        invariant
            my_score == weighted_count(my_board, col as int),
            opp_score == weighted_count(opp_board, col as int),
            weights@ == seq![1i32, 2, 3, 5, 3, 2, 1],
    {
        proof {
            lemma_weighted_count_bound(my_board, col + 1);
            lemma_weighted_count_bound(opp_board, col + 1);
            lemma_column_shift_count((6 - col) as u64);
            lemma_pop_count_and_le(my_board, column_bits(col as int));
            lemma_pop_count_and_le(opp_board, column_bits(col as int));
        }
        let my_tokens_in_col = count_ones(my_board & (COL_MASK << (6 - col))) as i32;
        let opp_tokens_in_col = count_ones(opp_board & (COL_MASK << (6 - col))) as i32;
        assert(weights[col as int] == column_weight(col as int));
        my_score += my_tokens_in_col * weights[col as usize];
        opp_score += opp_tokens_in_col * weights[col as usize];
    }
    proof {
        lemma_weighted_count_bound(my_board, 7);
        lemma_weighted_count_bound(opp_board, 7);
    }
    my_score - opp_score
}

} // verus!

verus! {

/// The evaluation is zero-sum: handing the turn to the other player negates
/// it.
pub proof fn lemma_evaluation_swaps_sides(b: Board)
    ensures
        evaluation(
            Board { red: b.red, yellow: b.yellow, nb_moves: b.nb_moves, red_turn: !b.red_turn },
        ) == -evaluation(b),
{
}

} // verus!

verus! {

proof fn lemma_pop_count_and_le(x: u64, y: u64)
    ensures
        pop_count(x & y) <= pop_count(y),
    decreases y,
{
    if y != 0 {
        assert((x & y) / 2 == (x / 2) & (y / 2)) by (bit_vector);
        assert((x & y) % 2 <= y % 2) by (bit_vector);
        lemma_pop_count_and_le(x / 2, y / 2);
        if x & y != 0 {
            assert(pop_count(x & y) == ((x & y) % 2) as nat + pop_count((x & y) / 2));
        }
    } else {
        assert(x & 0 == 0) by (bit_vector);
    }
}

proof fn lemma_pop_count_double(y: u64)
    requires
        y <= u64::MAX / 2,
    ensures
        pop_count((2 * y) as u64) == pop_count(y),
{
    let z = (2 * y) as u64;
    if y != 0 {
        assert(z / 2 == y && z % 2 == 0);
    }
}

proof fn lemma_pop_count_odd(y: u64)
    requires
        y <= u64::MAX / 4,
    ensures
        pop_count((2 * y + 1) as u64) == 1 + pop_count(y),
{
    let z = (2 * y + 1) as u64;
    assert(z / 2 == y && z % 2 == 1);
}

/// `pop_count(128 * y + 1) == pop_count(y) + 1`.
proof fn lemma_pop_count_row_step(y: u64)
    requires
        y <= 0x100000000,
    ensures
        pop_count((128 * y + 1) as u64) == 1 + pop_count(y),
{
    lemma_pop_count_double(y);
    lemma_pop_count_double((2 * y) as u64);
    lemma_pop_count_double((4 * y) as u64);
    lemma_pop_count_double((8 * y) as u64);
    lemma_pop_count_double((16 * y) as u64);
    lemma_pop_count_double((32 * y) as u64);
    lemma_pop_count_odd((64 * y) as u64);
}

proof fn lemma_column_shift_count(s: u64)
    requires
        s < 7,
    ensures
        pop_count(COL_MASK << s) == 6,
    decreases s,
{
    if s == 0 {
        assert((0x810204081u64 << 0u64) == 0x810204081u64) by (bit_vector);
        assert(pop_count(1) == 1) by {
            reveal_with_fuel(pop_count, 2);
        }
        lemma_pop_count_row_step(1);
        lemma_pop_count_row_step(129);
        lemma_pop_count_row_step(16513);
        lemma_pop_count_row_step(2113665);
        lemma_pop_count_row_step(270549121);
    } else {
        lemma_column_shift_count((s - 1) as u64);
        let t = (s - 1) as u64;
        assert(t < 6 ==> (0x810204081u64 << ((t + 1) as u64)) == 2 * (0x810204081u64 << t) && (
        0x810204081u64 << t) <= 0x7fff_ffff_ffff_ffffu64) by (bit_vector);
        lemma_pop_count_double(COL_MASK << t);
    }
}

} // verus!

verus! {

/// Weight of column `col` (1 to 7) for the evaluation: 5 for the centre,
/// then 3, 2 and 1 towards either edge.
pub open spec fn centre_weight(col: int) -> int {
    if col == 4 {
        5
    } else if col == 3 || col == 5 {
        3
    } else if col == 2 || col == 6 {
        2
    } else {
        1
    }
}

/// Weight of the discs of `x` in the cells `p..42` of the grid: cell `p`
/// lies in column `7 - p % 7` (see `geometry::cell`), and each disc counts
/// the weight of its column.
pub open spec fn disc_weight(x: u64, p: int) -> int
    decreases 42 - p,
{
    if p < 0 || p >= 42 {
        0
    } else {
        (if bit(x, p) {
            centre_weight(7 - p % 7)
        } else {
            0
        }) + disc_weight(x, p + 1)
    }
}

/// Number of set bits of `y` at the positions `p..64`.
spec fn ones_from(y: u64, p: int) -> int
    decreases 64 - p,
{
    if p < 0 || p >= 64 {
        0
    } else {
        (if bit(y, p) {
            1int
        } else {
            0
        }) + ones_from(y, p + 1)
    }
}

proof fn lemma_ones_shift(y: u64, q: int)
    requires
        0 <= q <= 63,
    ensures
        ones_from(y, q + 1) == ones_from(y / 2, q),
    decreases 64 - q,
{
    assert(y >> 1u64 == y / 2) by (bit_vector);
    lemma_bit_shr(y, 1, q);
    if q < 63 {
        lemma_ones_shift(y, q + 1);
    } else {
        assert(ones_from(y, 64) == 0);
        assert(ones_from(y / 2, 64) == 0);
    }
}

proof fn lemma_ones_of_zero(p: int)
    requires
        0 <= p <= 64,
    ensures
        ones_from(0, p) == 0,
    decreases 64 - p,
{
    lemma_nonzero_iff_bit(0);
    if p < 64 {
        lemma_ones_of_zero(p + 1);
    }
}

proof fn lemma_pop_count_is_ones(y: u64)
    ensures
        pop_count(y) == ones_from(y, 0),
    decreases y,
{
    if y == 0 {
        lemma_ones_of_zero(0);
    } else {
        lemma_pop_count_is_ones(y / 2);
        lemma_ones_shift(y, 0);
        assert((y >> 0u64) & 1u64 == y % 2) by (bit_vector);
    }
}

/// The discs of `x` counted column by column, each count times the
/// column's weight, from position `p` on.
spec fn column_sum(x: u64, p: int) -> int {
    ones_from(x & column_bits(0), p) + 2 * ones_from(x & column_bits(1), p) + 3 * ones_from(
        x & column_bits(2),
        p,
    ) + 5 * ones_from(x & column_bits(3), p) + 3 * ones_from(x & column_bits(4), p) + 2
        * ones_from(x & column_bits(5), p) + ones_from(x & column_bits(6), p)
}

proof fn lemma_column_sum(x: u64, p: int)
    requires
        0 <= p <= 64,
    ensures
        column_sum(x, p) == disc_weight(x, p),
    decreases 64 - p,
{
    if p < 64 {
        lemma_column_sum(x, p + 1);
        assert forall|c: int| 0 <= c < 7 implies #[trigger] bit(x & column_bits(c), p) == (bit(x, p)
            && p < 42 && p % 7 == 6 - c) by {
            lemma_bit_and(x, column_bits(c), p);
            lemma_column_mask_bit((6 - c) as u64, p);
        }
        assert(bit(x & column_bits(0), p) == (bit(x, p) && p < 42 && p % 7 == 6));
        assert(bit(x & column_bits(1), p) == (bit(x, p) && p < 42 && p % 7 == 5));
        assert(bit(x & column_bits(2), p) == (bit(x, p) && p < 42 && p % 7 == 4));
        assert(bit(x & column_bits(3), p) == (bit(x, p) && p < 42 && p % 7 == 3));
        assert(bit(x & column_bits(4), p) == (bit(x, p) && p < 42 && p % 7 == 2));
        assert(bit(x & column_bits(5), p) == (bit(x, p) && p < 42 && p % 7 == 1));
        assert(bit(x & column_bits(6), p) == (bit(x, p) && p < 42 && p % 7 == 0));
    } else {
        assert(column_sum(x, p) == 0);
    }
}

/// The evaluation weighs every disc on the grid by its column: the sum of
/// the column weights of the discs of the player to move, minus that of the
/// opponent's discs.
pub proof fn lemma_evaluation_weighs_discs(b: Board)
    ensures
        evaluation(b) == disc_weight(if b.red_turn { b.red } else { b.yellow }, 0) - disc_weight(
            if b.red_turn { b.yellow } else { b.red },
            0,
        ),
{
    lemma_weighted_count_is_disc_weight(b.red);
    lemma_weighted_count_is_disc_weight(b.yellow);
}

proof fn lemma_weighted_count_is_disc_weight(x: u64)
    ensures
        weighted_count(x, 7) == disc_weight(x, 0),
{
    reveal_with_fuel(weighted_count, 8);
    lemma_pop_count_is_ones(x & column_bits(0));
    lemma_pop_count_is_ones(x & column_bits(1));
    lemma_pop_count_is_ones(x & column_bits(2));
    lemma_pop_count_is_ones(x & column_bits(3));
    lemma_pop_count_is_ones(x & column_bits(4));
    lemma_pop_count_is_ones(x & column_bits(5));
    lemma_pop_count_is_ones(x & column_bits(6));
    lemma_column_sum(x, 0);
}

} // verus!
