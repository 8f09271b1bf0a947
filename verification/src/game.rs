use vstd::prelude::*;
use crate::bits::{
    bit, lemma_bit_and, lemma_bit_not, lemma_bit_shr, lemma_bit_shl, lemma_bit_xor,
    lemma_nonzero_iff_bit,
};
use crate::rules::{is_consistent, lemma_played_consistent};
use crate::geometry::{
    WIDTH, COL_MASK, FULL_BOARD, MASK_RIGHT, MASK_LEFT, cell, lemma_full_board_bit,
    lemma_column_mask_bit, lemma_mask_right_bit, lemma_mask_left_bit,
};

verus! {

/// Where a game stands.
#[derive(Debug, Clone, Copy, PartialEq, Eq, Structural)]
pub enum GameStatus {
    Ongoing,
    Connected { red_win: bool },
    Draw,
}

/// A Connect Four position: one bitboard per player (see `geometry::cell`
/// for the layout), the number of moves played and whose turn it is.
#[derive(Debug, Clone, Copy)]
pub struct Board {
    pub red: u64,
    pub yellow: u64,
    pub nb_moves: u8,
    pub red_turn: bool,
}

/// Four set bits of `x`, starting at `p`, `d` positions apart.
pub open spec fn four_from(x: u64, p: int, d: int) -> bool {
    &&& bit(x, p)
    &&& bit(x, p + d)
    &&& bit(x, p + 2 * d)
    &&& bit(x, p + 3 * d)
}

/// Four aligned bits of `x` in one of the shapes that `Board::has_won` looks
/// for: along a row (step 1, starting in the four right-most positions of a
/// row), along a column (step 7), or along a diagonal (step 8 from the four
/// right-most positions of a row, or step 6 from the four left-most).
pub open spec fn has_four(x: u64) -> bool {
    ||| exists|p: int| 0 <= p < 42 && p % 7 <= 3 && #[trigger] four_from(x, p, 1)
    ||| exists|p: int| #[trigger] four_from(x, p, 7)
    ||| exists|p: int| 0 <= p < 42 && p % 7 <= 3 && #[trigger] four_from(x, p, 8)
    ||| exists|p: int| 0 <= p < 42 && p % 7 >= 3 && #[trigger] four_from(x, p, 6)
}

/// Value of position `i` (0 to 6) of the order in which moves are listed.
pub open spec fn move_order(i: int) -> u8 {
    if i == 0 {
        4
    } else if i == 1 {
        3
    } else if i == 2 {
        5
    } else if i == 3 {
        2
    } else if i == 4 {
        6
    } else if i == 5 {
        1
    } else {
        7
    }
}

proof fn lemma_pair_bits(b: u64, d: u64, i: int)
    requires
        d < 64,
    ensures
        bit(b & (b >> d), i) == (bit(b, i) && bit(b, i + d)),
{
    lemma_bit_and(b, b >> d, i);
    lemma_bit_shr(b, d, i);
}

proof fn lemma_quad_bits(b: u64, d: u64, i: int)
    requires
        1 <= d,
        2 * d < 64,
    ensures
        bit((b & (b >> d)) & ((b & (b >> d)) >> (2 * d) as u64), i) == four_from(b, i, d as int),
{
    let m = b & (b >> d);
    let e = (2 * d) as u64;
    lemma_bit_and(m, m >> e, i);
    lemma_bit_shr(m, e, i);
    lemma_pair_bits(b, d, i);
    lemma_pair_bits(b, d, i + e);
}

/// First row, from `row` upwards, whose cell in column `col` is clear in `s`
/// (6 when there is none).
pub open spec fn landing_row_from(s: u64, col: int, row: int) -> int
    decreases 6 - row,
{
    if row >= 6 {
        6
    } else if !bit(s, cell(col, row)) {
        row
    } else {
        landing_row_from(s, col, row + 1)
    }
}

proof fn lemma_landing_row_from(s: u64, col: int, row: int)
    requires
        0 <= row <= 6,
    ensures
        row <= landing_row_from(s, col, row) <= 6,
        forall|q: int|
            row <= q < landing_row_from(s, col, row) ==> #[trigger] bit(s, cell(col, q)),
        landing_row_from(s, col, row) < 6 ==> !bit(s, cell(col, landing_row_from(s, col, row))),
    decreases 6 - row,
{
    if row < 6 && bit(s, cell(col, row)) {
        lemma_landing_row_from(s, col, row + 1);
    }
}

impl Board {
    /// Row in which a disc dropped into column `col` comes to rest: the
    /// lowest clear cell of that column (6 when the column is full).
    pub open spec fn landing_row(self, col: int) -> int {
        landing_row_from(self.occupancy(), col, 0)
    }

    /// Whether column `col` has a clear cell.
    pub open spec fn has_room(self, col: int) -> bool {
        self.landing_row(col) < 6
    }

    /// The position after the player to move drops a disc into column `col`:
    /// the disc lands on the lowest clear cell of the column, every bit
    /// outside the grid of the mover's bitboard is cleared, the move count
    /// grows by one and the turn passes.
    pub open spec fn played(self, col: int) -> Board {
        let disc = 1u64 << (cell(col, self.landing_row(col)) as u64);
        Board {
            red: if self.red_turn { (self.red | disc) & FULL_BOARD } else { self.red },
            yellow: if self.red_turn { self.yellow } else { (self.yellow | disc) & FULL_BOARD },
            nb_moves: (self.nb_moves + 1) as u8,
            red_turn: !self.red_turn,
        }
    }

    /// The position after `make_move(col)`: the move when `col` names a
    /// column with room, the same position otherwise.
    pub open spec fn after_move(self, col: int) -> Board {
        if 1 <= col <= 7 && self.has_room(col) {
            self.played(col)
        } else {
            self
        }
    }
}

/// The clear cells of column `col`, as `make_move` and `column_has_room`
/// compute them: the mask is non-zero exactly when the column has room, and
/// below the landing cell it has no bit.
proof fn lemma_free_cells(b: Board, col: int, state: u64, mask: u64, free: u64)
    requires
        1 <= col <= 7,
        state == (b.red | b.yellow) & FULL_BOARD,
        mask == COL_MASK << ((7 - col) as u64),
        free == (!state) & mask,
    ensures
        forall|p: int| #[trigger] bit(free, p) == (0 <= p < 42 && p % 7 == 7 - col && !bit(
            b.occupancy(),
            p,
        )),
        forall|p: int| 0 <= p < cell(col, b.landing_row(col)) ==> !#[trigger] bit(free, p),
        (free != 0) == b.has_room(col),
{
    let occ = b.occupancy();
    let sh = (7 - col) as u64;
    let r = b.landing_row(col);
    let k = cell(col, r);
    lemma_landing_row(b, col);
    assert forall|p: int| #[trigger] bit(free, p) == (0 <= p < 42 && p % 7 == sh && !bit(occ, p)) by {
        lemma_bit_and(!state, mask, p);
        lemma_bit_not(state, p);
        lemma_bit_and(occ, FULL_BOARD, p);
        lemma_full_board_bit(p);
        lemma_column_mask_bit(sh, p);
    }
    assert forall|p: int| 0 <= p < k implies !#[trigger] bit(free, p) by {
        if bit(free, p) {
            let q = p / 7;
            assert(p == sh + 7 * q);
            assert(bit(occ, cell(col, q)));
        }
    }
    lemma_nonzero_iff_bit(free);
    if r < 6 {
        assert(bit(free, k));
    } else if free != 0 {
        let p = choose|p: int| bit(free, p);
        let q = p / 7;
        assert(p == sh + 7 * q);
        assert(bit(occ, cell(col, q)));
    }
}

pub proof fn lemma_landing_row(b: Board, col: int)
    ensures
        0 <= b.landing_row(col) <= 6,
        forall|q: int| 0 <= q < b.landing_row(col) ==> #[trigger] bit(b.occupancy(), cell(col, q)),
        b.has_room(col) ==> !bit(b.occupancy(), cell(col, b.landing_row(col))),
{
    lemma_landing_row_from(b.occupancy(), col, 0);
}

impl Board {
    /// The disc colours are one bitboard per player: the cells of both.
    pub open spec fn occupancy(self) -> u64 {
        self.red | self.yellow
    }

    pub open spec fn status(self) -> GameStatus {
        if has_four(self.red) {
            GameStatus::Connected { red_win: true }
        } else if has_four(self.yellow) {
            GameStatus::Connected { red_win: false }
        } else if self.nb_moves >= 42 {
            GameStatus::Draw
        } else {
            GameStatus::Ongoing
        }
    }

    /// Whether `generate_moves` lists the value `v` (1 to 7): bit `34 + v`
    /// of the occupancy, a cell of the top row, is clear.
    pub open spec fn top_free(self, v: int) -> bool {
        !bit(self.occupancy(), 34 + v)
    }

    /// The values that `generate_moves` lists among the first `n` positions
    /// of the move order, in that order.
    pub open spec fn listed_prefix(self, n: int) -> Seq<u8>
        decreases n,
    {
        if n <= 0 {
            seq![]
        } else {
            let p = self.listed_prefix(n - 1);
            if self.top_free(move_order(n - 1) as int) {
                p.push(move_order(n - 1))
            } else {
                p
            }
        }
    }

    pub open spec fn listed_moves(self) -> Seq<u8> {
        self.listed_prefix(7)
    }

    pub fn new() -> (b: Self)
        ensures
            b == (Board { red: 0, yellow: 0, nb_moves: 0, red_turn: true }),
    {
        Board { red: 0, yellow: 0, nb_moves: 0, red_turn: true }
    }

    pub fn reset(&mut self)
        ensures
            *final(self) == (Board { red: 0, yellow: 0, nb_moves: 0, red_turn: true }),
    {
        self.red = 0;
        self.yellow = 0;
        self.nb_moves = 0;
        self.red_turn = true;
    }

    /// Whether `player_board` holds four aligned discs (see `has_four`).
    pub fn has_won(player_board: u64) -> (r: bool)
        ensures
            r == has_four(player_board),
    {
        let b = player_board;
        let m = player_board & (player_board >> 1);
        let x = m & (m >> 2) & MASK_RIGHT;
        proof {
            lemma_nonzero_iff_bit(x);
            assert forall|i: int| #[trigger] bit(x, i) == (0 <= i < 42 && i % 7 <= 3
                && four_from(b, i, 1)) by {
                lemma_bit_and(m & (m >> 2), MASK_RIGHT, i);
                lemma_quad_bits(b, 1, i);
                lemma_mask_right_bit(i);
            }
            if x != 0 {
                let i = choose|i: int| bit(x, i);
                assert(four_from(b, i, 1));
            } else {
                assert(!exists|p: int| 0 <= p < 42 && p % 7 <= 3 && #[trigger] four_from(b, p, 1)) by {
                    if exists|p: int| 0 <= p < 42 && p % 7 <= 3 && #[trigger] four_from(b, p, 1) {
                        let p = choose|p: int| 0 <= p < 42 && p % 7 <= 3 && #[trigger] four_from(b, p, 1);
                        assert(bit(x, p));
                    }
                }
            }
        }
        if (m & (m >> 2) & MASK_RIGHT) != 0 {
            return true;
        }
        let m = player_board & (player_board >> 7);
        let x = m & (m >> 14);
        proof {
            lemma_nonzero_iff_bit(x);
            assert forall|i: int| #[trigger] bit(x, i) == four_from(b, i, 7) by {
                lemma_quad_bits(b, 7, i);
            }
            if x != 0 {
                let i = choose|i: int| bit(x, i);
                assert(four_from(b, i, 7));
            } else {
                assert(!exists|p: int| #[trigger] four_from(b, p, 7)) by {
                    if exists|p: int| #[trigger] four_from(b, p, 7) {
                        let p = choose|p: int| #[trigger] four_from(b, p, 7);
                        assert(bit(x, p));
                    }
                }
            }
        }
        if (m & (m >> 14)) != 0 {
            return true;
        }
        let m = player_board & (player_board >> 8);
        let x = m & (m >> 16) & MASK_RIGHT;
        proof {
            lemma_nonzero_iff_bit(x);
            assert forall|i: int| #[trigger] bit(x, i) == (0 <= i < 42 && i % 7 <= 3
                && four_from(b, i, 8)) by {
                lemma_bit_and(m & (m >> 16), MASK_RIGHT, i);
                lemma_quad_bits(b, 8, i);
                lemma_mask_right_bit(i);
            }
            if x != 0 {
                let i = choose|i: int| bit(x, i);
                assert(four_from(b, i, 8));
            } else {
                assert(!exists|p: int| 0 <= p < 42 && p % 7 <= 3 && #[trigger] four_from(b, p, 8)) by {
                    if exists|p: int| 0 <= p < 42 && p % 7 <= 3 && #[trigger] four_from(b, p, 8) {
                        let p = choose|p: int| 0 <= p < 42 && p % 7 <= 3 && #[trigger] four_from(b, p, 8);
                        assert(bit(x, p));
                    }
                }
            }
        }
        if (m & (m >> 16) & MASK_RIGHT) != 0 {
            return true;
        }
        let m = player_board & (player_board >> 6);
        let x = m & (m >> 12) & MASK_LEFT;
        proof {
            lemma_nonzero_iff_bit(x);
            assert forall|i: int| #[trigger] bit(x, i) == (0 <= i < 42 && i % 7 >= 3
                && four_from(b, i, 6)) by {
                lemma_bit_and(m & (m >> 12), MASK_LEFT, i);
                lemma_quad_bits(b, 6, i);
                lemma_mask_left_bit(i);
            }
            if x != 0 {
                let i = choose|i: int| bit(x, i);
                assert(four_from(b, i, 6));
            } else {
                assert(!exists|p: int| 0 <= p < 42 && p % 7 >= 3 && #[trigger] four_from(b, p, 6)) by {
                    if exists|p: int| 0 <= p < 42 && p % 7 >= 3 && #[trigger] four_from(b, p, 6) {
                        let p = choose|p: int| 0 <= p < 42 && p % 7 >= 3 && #[trigger] four_from(b, p, 6);
                        assert(bit(x, p));
                    }
                }
            }
        }
        if (m & (m >> 12) & MASK_LEFT) != 0 {
            return true;
        }
        false
    }


    /// Lists the values 1 to 7 whose top-row bit (`34 + v`) is clear, in the
    /// order 4, 3, 5, 2, 6, 1, 7; the count comes first and unused entries
    /// are 0.
    pub fn generate_moves(&self) -> (r: (usize, [u8; 7]))
        ensures
            r.0 == self.listed_moves().len(),
            forall|i: int| 0 <= i < r.0 ==> r.1@[i] == self.listed_moves()[i],
            forall|i: int| r.0 <= i < 7 ==> r.1@[i] == 0,
    {
        let state: u64 = self.red | self.yellow;
        let top_row = (state >> 35) & 0b1111111;
        let valid_cols = (!top_row) & 0b1111111;
        let mut moves: [u8; 7] = [0; 7];
        let mut count: usize = 0;
        let order: [u8; 7] = [3, 2, 4, 1, 5, 0, 6];
        for i in 0..7
            invariant
                count <= i,
                count == self.listed_prefix(i as int).len(),
                forall|j: int| 0 <= j < count ==> moves@[j] == self.listed_prefix(i as int)[j],
                forall|j: int| count <= j < 7 ==> moves@[j] == 0,
                valid_cols == (!((state >> 35) & 0b1111111u64)) & 0b1111111u64,
                state == self.occupancy(),
                order@ == seq![3u8, 2, 4, 1, 5, 0, 6],
        {
            let col = order[i];
            assert(col + 1 == move_order(i as int));
            proof {
                let c = col as u64;
                assert(c < 7 ==> (((!((state >> 35) & 0b1111111u64)) & 0b1111111u64) & (1u64 << c)
                    != 0 <==> !((state >> (35 + c) as u64) & 1u64 == 1u64))) by (bit_vector);
                assert(self.top_free(move_order(i as int) as int) == !bit(state, 35 + c));
            }
            if (valid_cols & (1 << col)) != 0 {
                moves[count] = col + 1;
                count += 1;
            }
        }
        (count, moves)
    }


    /// Drops a disc of the player to move into column `col` (1 to 7) and
    /// passes the turn. A column number outside `1..=7`, or a column without
    /// room, is refused with `false` and leaves the board as it was, so the
    /// same player can be asked again.
    pub fn make_move(&mut self, col: u8) -> (r: bool)
        requires
            1 <= col <= 7 && old(self).has_room(col as int) ==> old(self).nb_moves < 255,
        ensures
            r == (1 <= col <= 7 && old(self).has_room(col as int)),
            *final(self) == old(self).after_move(col as int),
            is_consistent(*old(self)) ==> is_consistent(*final(self)),
    {
        let state: u64 = (self.red | self.yellow) & FULL_BOARD;
        if (col < 1) || (col > WIDTH) {
            return false;
        }
        let mask: u64 = COL_MASK << (7 - col);
        let curr_col_mask: u64 = (!state) & mask;
        proof {
            lemma_free_cells(*self, col as int, state, mask, curr_col_mask);
        }
        if curr_col_mask == 0 {
            return false;
        }
        let max_row: u64 = ((curr_col_mask << WIDTH) ^ curr_col_mask) & FULL_BOARD;
        let idx = max_row.trailing_zeros();
        proof {
            let occ = self.occupancy();
            let sh = (7 - col) as u64;
            let r = self.landing_row(col as int);
            let k = cell(col as int, r);
            lemma_landing_row(*self, col as int);
            assert(bit(curr_col_mask, k));
            assert forall|p: int| #[trigger] bit(max_row, p) == (0 <= p < 42 && ((7 <= p && bit(
                curr_col_mask,
                p - 7,
            )) != bit(curr_col_mask, p))) by {
                lemma_bit_and((curr_col_mask << 7u64) ^ curr_col_mask, FULL_BOARD, p);
                lemma_full_board_bit(p);
                lemma_bit_xor(curr_col_mask << 7u64, curr_col_mask, p);
                lemma_bit_shl(curr_col_mask, 7u64, p);
            }
            assert forall|p: int| 0 <= p < k implies !#[trigger] bit(max_row, p) by {
                assert(!bit(curr_col_mask, p));
                if 7 <= p {
                    assert(!bit(curr_col_mask, p - 7));
                }
            }
            if 7 <= k {
                assert(k - 7 == cell(col as int, r - 1));
                assert(bit(occ, k - 7));
                assert(!bit(curr_col_mask, k - 7));
            }
            assert(bit(max_row, k));
            vstd::std_specs::bits::axiom_u64_trailing_zeros(max_row);
            let t = vstd::std_specs::bits::u64_trailing_zeros(max_row) as int;
            if t < k {
                assert(bit(max_row, t));
            }
            if t > k {
                let j = k as u64;
                assert((max_row >> j) & 1u64 == 0u64);
            }
            assert(idx == k);
            assert((1u64 << idx) == (1u64 << (idx as u64))) by (bit_vector);
            if is_consistent(*self) {
                lemma_played_consistent(*self, col as int);
            }
        }
        if self.red_turn {
            self.red |= 1 << idx;
            self.red &= FULL_BOARD;
        } else {
            self.yellow |= 1 << idx;
            self.yellow &= FULL_BOARD;
        }
        self.nb_moves += 1;
        self.red_turn = !self.red_turn;
        true
    }

    /// Whether column `col` (1 to 7) has a clear cell, that is whether
    /// `make_move(col)` plays.
    pub fn column_has_room(&self, col: u8) -> (r: bool)
        requires
            1 <= col <= 7,
        ensures
            r == self.has_room(col as int),
    {
        let state: u64 = (self.red | self.yellow) & FULL_BOARD;
        let mask: u64 = COL_MASK << (7 - col);
        let curr_col_mask: u64 = (!state) & mask;
        proof {
            lemma_free_cells(*self, col as int, state, mask, curr_col_mask);
        }
        curr_col_mask != 0
    }

    pub fn get_game_status(&self) -> (s: GameStatus)
        ensures
            s == self.status(),
    {
        if Self::has_won(self.red) {
            return GameStatus::Connected { red_win: true };
        }
        if Self::has_won(self.yellow) {
            return GameStatus::Connected { red_win: false };
        }
        if self.nb_moves >= 42 {
            return GameStatus::Draw;
        }
        GameStatus::Ongoing
    }
}

} // verus!
