use vstd::prelude::*;
use crate::bits::{bit, lemma_bit_and, lemma_bit_or, lemma_bit_single};
use crate::geometry::{FULL_BOARD, cell, on_grid, lemma_full_board_bit};
use crate::game::{Board, GameStatus, has_four, four_from, lemma_landing_row, move_order};

verus! {

/// No bit of `x` lies outside the 42 cells of the grid.
pub open spec fn within_grid(x: u64) -> bool {
    forall|i: int| 42 <= i ==> !#[trigger] bit(x, i)
}

/// The four directions of a line on the grid: along a row, up a column, and
/// the two diagonals.
pub open spec fn is_direction(dc: int, dr: int) -> bool {
    ||| dc == 1 && dr == 0
    ||| dc == 0 && dr == 1
    ||| dc == 1 && dr == 1
    ||| dc == -1 && dr == 1
}

/// Four cells of the grid in a line from `(c, r)` in direction `(dc, dr)`,
/// all set in `x`.
pub open spec fn aligned_four(x: u64, c: int, r: int, dc: int, dr: int) -> bool {
    &&& on_grid(c, r)
    &&& on_grid(c + 3 * dc, r + 3 * dr)
    &&& bit(x, cell(c, r))
    &&& bit(x, cell(c + dc, r + dr))
    &&& bit(x, cell(c + 2 * dc, r + 2 * dr))
    &&& bit(x, cell(c + 3 * dc, r + 3 * dr))
}

pub open spec fn has_line_of_four(x: u64) -> bool {
    exists|c: int, r: int, dc: int, dr: int|
        is_direction(dc, dr) && #[trigger] aligned_four(x, c, r, dc, dr)
}

/// For a bitboard within the grid, `Board::has_won` (that is, `has_four`)
/// holds exactly when four of its discs are aligned on the grid, along a
/// row, a column or a diagonal.
pub proof fn lemma_has_four_is_line_of_four(x: u64)
    requires
        within_grid(x),
    ensures
        has_four(x) == has_line_of_four(x),
{
    if has_four(x) {
        if exists|p: int| 0 <= p < 42 && p % 7 <= 3 && #[trigger] four_from(x, p, 1) {
            let p = choose|p: int| 0 <= p < 42 && p % 7 <= 3 && #[trigger] four_from(x, p, 1);
            let c0 = 7 - p % 7;
            let r = p / 7;
            assert(p == cell(c0, r));
            assert(aligned_four(x, c0 - 3, r, 1, 0));
        } else if exists|p: int| #[trigger] four_from(x, p, 7) {
            let p = choose|p: int| #[trigger] four_from(x, p, 7);
            let c = 7 - p % 7;
            let r = p / 7;
            assert(p == cell(c, r));
            assert(aligned_four(x, c, r, 0, 1));
        } else if exists|p: int| 0 <= p < 42 && p % 7 <= 3 && #[trigger] four_from(x, p, 8) {
            let p = choose|p: int| 0 <= p < 42 && p % 7 <= 3 && #[trigger] four_from(x, p, 8);
            let c = 7 - p % 7;
            let r = p / 7;
            assert(p == cell(c, r));
            assert(aligned_four(x, c, r, -1, 1));
        } else {
            let p = choose|p: int| 0 <= p < 42 && p % 7 >= 3 && #[trigger] four_from(x, p, 6);
            let c = 7 - p % 7;
            let r = p / 7;
            assert(p == cell(c, r));
            assert(aligned_four(x, c, r, 1, 1));
        }
    }
    if has_line_of_four(x) {
        let (c, r, dc, dr) = choose|c: int, r: int, dc: int, dr: int|
            is_direction(dc, dr) && #[trigger] aligned_four(x, c, r, dc, dr);
        if dc == 1 && dr == 0 {
            let p = cell(c + 3, r);
            assert(four_from(x, p, 1));
        } else if dc == 0 && dr == 1 {
            assert(four_from(x, cell(c, r), 7));
        } else if dc == 1 && dr == 1 {
            assert(four_from(x, cell(c, r), 6));
        } else {
            assert(four_from(x, cell(c, r), 8));
        }
    }
}

} // verus!

verus! {

/// Number of set bits of `x` among positions `0..n`.
pub open spec fn disc_count(x: u64, n: int) -> nat
    decreases n,
{
    if n <= 0 {
        0
    } else {
        disc_count(x, n - 1) + if bit(x, n - 1) {
            1nat
        } else {
            0nat
        }
    }
}

proof fn lemma_disc_count_add(x: u64, y: u64, k: int, n: int)
    requires
        0 <= k,
        !bit(x, k),
        bit(y, k),
        forall|i: int| i != k ==> #[trigger] bit(y, i) == bit(x, i),
    ensures
        disc_count(y, n) == disc_count(x, n) + if k < n {
            1nat
        } else {
            0nat
        },
    decreases n,
{
    if n > 0 {
        lemma_disc_count_add(x, y, k, n - 1);
        if n - 1 != k {
            assert(bit(y, n - 1) == bit(x, n - 1));
        }
    }
}

/// A position that play from the empty board can reach as far as the
/// bitboards go: no cell holds two discs, no disc lies outside the grid,
/// every disc above the bottom row rests on another disc, the move count is
/// the number of discs, and red has as many discs as yellow when red is to
/// move and one more otherwise.
pub open spec fn is_consistent(b: Board) -> bool {
    &&& b.nb_moves == disc_count(b.red, 42) + disc_count(b.yellow, 42)
    &&& disc_count(b.red, 42) == disc_count(b.yellow, 42) + if b.red_turn {
        0nat
    } else {
        1nat
    }
    &&& forall|i: int| !(#[trigger] bit(b.red, i) && bit(b.yellow, i))
    &&& within_grid(b.red)
    &&& within_grid(b.yellow)
    &&& forall|c: int, r: int|
        1 <= c <= 7 && 1 <= r < 6 && #[trigger] bit(b.occupancy(), cell(c, r)) ==> bit(
            b.occupancy(),
            cell(c, r - 1),
        )
}

/// What a move does to the bitboards: the landing cell is a clear cell of
/// the grid in column `col` above only occupied cells; the mover's bitboard
/// gains exactly that cell and loses every bit outside the grid; the other
/// bitboard is unchanged.
pub proof fn lemma_played_bits(b: Board, col: int, i: int)
    requires
        1 <= col <= 7,
        b.has_room(col),
    ensures
        ({
            let k = cell(col, b.landing_row(col));
            let p = b.played(col);
            &&& 0 <= k < 42
            &&& !bit(b.occupancy(), k)
            &&& forall|q: int|
                0 <= q < b.landing_row(col) ==> #[trigger] bit(b.occupancy(), cell(col, q))
            &&& b.red_turn ==> bit(p.red, i) == (0 <= i < 42 && (bit(b.red, i) || i == k))
                && p.yellow == b.yellow
            &&& !b.red_turn ==> bit(p.yellow, i) == (0 <= i < 42 && (bit(b.yellow, i) || i == k))
                && p.red == b.red
            &&& p.nb_moves == (b.nb_moves + 1) as u8
            &&& p.red_turn == !b.red_turn
        }),
{
    lemma_landing_row(b, col);
    let k = cell(col, b.landing_row(col));
    let disc = 1u64 << (k as u64);
    lemma_bit_single(k as u64, i);
    lemma_full_board_bit(i);
    lemma_bit_and(b.red | disc, FULL_BOARD, i);
    lemma_bit_or(b.red, disc, i);
    lemma_bit_and(b.yellow | disc, FULL_BOARD, i);
    lemma_bit_or(b.yellow, disc, i);
}

/// A move into a column with room keeps a position consistent.
pub proof fn lemma_played_consistent(b: Board, col: int)
    requires
        1 <= col <= 7,
        b.has_room(col),
        is_consistent(b),
    ensures
        is_consistent(b.played(col)),
{
    let p = b.played(col);
    let k = cell(col, b.landing_row(col));
    lemma_landing_row(b, col);
    lemma_disc_count_bound(b.red, 42);
    lemma_disc_count_bound(b.yellow, 42);
    lemma_played_bits(b, col, k);
    lemma_bit_or(b.red, b.yellow, k);
    if b.red_turn {
        assert forall|i: int| i != k implies #[trigger] bit(p.red, i) == bit(b.red, i) by {
            lemma_played_bits(b, col, i);
            if 42 <= i {
                assert(!bit(b.red, i));
            }
        }
        lemma_disc_count_add(b.red, p.red, k, 42);
    } else {
        assert forall|i: int| i != k implies #[trigger] bit(p.yellow, i) == bit(b.yellow, i) by {
            lemma_played_bits(b, col, i);
            if 42 <= i {
                assert(!bit(b.yellow, i));
            }
        }
        lemma_disc_count_add(b.yellow, p.yellow, k, 42);
    }
    assert forall|i: int| #[trigger] bit(p.occupancy(), i) == (bit(b.occupancy(), i) || i == k)
        && (bit(p.red, i) == (bit(b.red, i) || (b.red_turn && i == k))) && (bit(p.yellow, i) == (
        bit(b.yellow, i) || (!b.red_turn && i == k))) by {
        lemma_played_bits(b, col, i);
        lemma_bit_or(p.red, p.yellow, i);
        lemma_bit_or(b.red, b.yellow, i);
    }
    assert forall|i: int| !(#[trigger] bit(p.red, i) && bit(p.yellow, i)) by {
        lemma_played_bits(b, col, i);
        lemma_bit_or(b.red, b.yellow, i);
        lemma_bit_or(b.red, b.yellow, k);
        assert(!(bit(b.red, i) && bit(b.yellow, i)));
    }
    assert forall|i: int| 42 <= i implies !#[trigger] bit(p.red, i) by {
        lemma_played_bits(b, col, i);
        assert(!bit(b.red, i));
    }
    assert forall|i: int| 42 <= i implies !#[trigger] bit(p.yellow, i) by {
        lemma_played_bits(b, col, i);
        assert(!bit(b.yellow, i));
    }
    assert forall|c: int, r: int|
        1 <= c <= 7 && 1 <= r < 6 && #[trigger] bit(p.occupancy(), cell(c, r)) implies bit(
        p.occupancy(),
        cell(c, r - 1),
    ) by {
        assert(bit(p.occupancy(), cell(c, r - 1)) == (bit(b.occupancy(), cell(c, r - 1)) || cell(
            c,
            r - 1,
        ) == k));
        if cell(c, r) == k {
            assert(c == col);
            assert(r == b.landing_row(col));
            assert(bit(b.occupancy(), cell(col, r - 1)));
        } else {
            assert(bit(b.occupancy(), cell(c, r)));
        }
    }
}

proof fn lemma_disc_count_bound(x: u64, n: int)
    requires
        0 <= n,
    ensures
        disc_count(x, n) <= n,
    decreases n,
{
    if n > 0 {
        lemma_disc_count_bound(x, n - 1);
    }
}

proof fn lemma_column_settled(b: Board, c: int, r: int, q: int)
    requires
        is_consistent(b),
        1 <= c <= 7,
        0 <= q <= r < 6,
        bit(b.occupancy(), cell(c, r)),
    ensures
        bit(b.occupancy(), cell(c, q)),
    decreases r - q,
{
    if q < r {
        assert(bit(b.occupancy(), cell(c, r - 1)));
        lemma_column_settled(b, c, r - 1, q);
    }
}

/// On a consistent position `generate_moves` lists the value `v` exactly
/// when column `8 - v` (in the numbering of `make_move`) has room: the
/// listed values name columns mirrored left to right.
pub proof fn lemma_listed_value_mirrors_column(b: Board, v: int)
    requires
        is_consistent(b),
        1 <= v <= 7,
    ensures
        b.top_free(v) == b.has_room(8 - v),
{
    let c = 8 - v;
    assert(34 + v == cell(c, 5));
    lemma_landing_row(b, c);
    if b.top_free(v) {
        if b.landing_row(c) == 6 {
            assert(bit(b.occupancy(), cell(c, 5)));
        }
    } else if b.has_room(c) {
        lemma_column_settled(b, c, 5, b.landing_row(c));
    }
}

/// The empty board is consistent.
pub proof fn lemma_empty_board_consistent()
    ensures
        is_consistent(Board { red: 0, yellow: 0, nb_moves: 0, red_turn: true }),
{
    assert forall|i: int| !#[trigger] bit(0u64, i) by {
        if 0 <= i < 64 {
            let p = i as u64;
            assert((0u64 >> p) & 1u64 == 0u64) by (bit_vector);
        }
    }
    assert((0u64 | 0u64) == 0u64) by (bit_vector);
    lemma_disc_count_zero(42);
}

proof fn lemma_disc_count_zero(n: int)
    ensures
        disc_count(0u64, n) == 0,
    decreases n,
{
    if n > 0 {
        lemma_disc_count_zero(n - 1);
        if 0 <= n - 1 < 64 {
            let p = (n - 1) as u64;
            assert((0u64 >> p) & 1u64 == 0u64) by (bit_vector);
        }
    }
}

/// Four aligned discs of a bitboard within the grid stay aligned after any
/// move: a move never undoes a connection.
pub proof fn lemma_connection_survives_move(b: Board, col: int)
    requires
        1 <= col <= 7,
        b.has_room(col),
        within_grid(b.red),
        within_grid(b.yellow),
    ensures
        has_four(b.red) ==> has_four(b.played(col).red),
        has_four(b.yellow) ==> has_four(b.played(col).yellow),
{
    let p = b.played(col);
    assert forall|i: int| bit(b.red, i) implies #[trigger] bit(p.red, i) by {
        lemma_played_bits(b, col, i);
    }
    assert forall|i: int| bit(b.yellow, i) implies #[trigger] bit(p.yellow, i) by {
        lemma_played_bits(b, col, i);
    }
    if has_four(b.red) {
        lemma_has_four_grows(b.red, p.red);
    }
    if has_four(b.yellow) {
        lemma_has_four_grows(b.yellow, p.yellow);
    }
}

proof fn lemma_has_four_grows(x: u64, y: u64)
    requires
        has_four(x),
        forall|i: int| bit(x, i) ==> #[trigger] bit(y, i),
    ensures
        has_four(y),
{
    if exists|p: int| 0 <= p < 42 && p % 7 <= 3 && #[trigger] four_from(x, p, 1) {
        let p = choose|p: int| 0 <= p < 42 && p % 7 <= 3 && #[trigger] four_from(x, p, 1);
        assert(four_from(y, p, 1));
    } else if exists|p: int| #[trigger] four_from(x, p, 7) {
        let p = choose|p: int| #[trigger] four_from(x, p, 7);
        assert(four_from(y, p, 7));
    } else if exists|p: int| 0 <= p < 42 && p % 7 <= 3 && #[trigger] four_from(x, p, 8) {
        let p = choose|p: int| 0 <= p < 42 && p % 7 <= 3 && #[trigger] four_from(x, p, 8);
        assert(four_from(y, p, 8));
    } else {
        let p = choose|p: int| 0 <= p < 42 && p % 7 >= 3 && #[trigger] four_from(x, p, 6);
        assert(four_from(y, p, 6));
    }
}

} // verus!

verus! {

proof fn lemma_disc_count_mono(x: u64, m: int, n: int)
    requires
        0 <= m <= n,
    ensures
        disc_count(x, m) <= disc_count(x, n),
    decreases n - m,
{
    if m < n {
        lemma_disc_count_mono(x, m, n - 1);
    }
}

/// Four set positions `p, p + d, p + 2d, p + 3d` inside the grid count as
/// four discs.
proof fn lemma_disc_count_of_four(x: u64, p: int, d: int)
    requires
        0 <= p,
        1 <= d,
        p + 3 * d < 42,
        four_from(x, p, d),
    ensures
        disc_count(x, 42) >= 4,
{
    lemma_disc_count_mono(x, 0, p);
    lemma_disc_count_mono(x, p + 1, p + d);
    lemma_disc_count_mono(x, p + d + 1, p + 2 * d);
    lemma_disc_count_mono(x, p + 2 * d + 1, p + 3 * d);
    lemma_disc_count_mono(x, p + 3 * d + 1, 42);
}

/// A bitboard within the grid that holds four aligned discs holds at least
/// four discs.
pub proof fn lemma_four_needs_four_discs(x: u64)
    requires
        within_grid(x),
        has_four(x),
    ensures
        disc_count(x, 42) >= 4,
{
    if exists|p: int| 0 <= p < 42 && p % 7 <= 3 && #[trigger] four_from(x, p, 1) {
        let p = choose|p: int| 0 <= p < 42 && p % 7 <= 3 && #[trigger] four_from(x, p, 1);
        lemma_disc_count_of_four(x, p, 1);
    } else if exists|p: int| #[trigger] four_from(x, p, 7) {
        let p = choose|p: int| #[trigger] four_from(x, p, 7);
        lemma_disc_count_of_four(x, p, 7);
    } else if exists|p: int| 0 <= p < 42 && p % 7 <= 3 && #[trigger] four_from(x, p, 8) {
        let p = choose|p: int| 0 <= p < 42 && p % 7 <= 3 && #[trigger] four_from(x, p, 8);
        lemma_disc_count_of_four(x, p, 8);
    } else {
        let p = choose|p: int| 0 <= p < 42 && p % 7 >= 3 && #[trigger] four_from(x, p, 6);
        lemma_disc_count_of_four(x, p, 6);
    }
}

/// A consistent position whose game is over has at least seven moves
/// played: a connection needs four discs of one player and at least three
/// of the other, and a draw needs 42 moves.
pub proof fn lemma_finished_game_length(b: Board)
    requires
        is_consistent(b),
        b.status() != GameStatus::Ongoing,
    ensures
        7 <= b.nb_moves,
{
    if has_four(b.red) {
        lemma_four_needs_four_discs(b.red);
    } else if has_four(b.yellow) {
        lemma_four_needs_four_discs(b.yellow);
    }
}

} // verus!

verus! {

proof fn lemma_disc_count_or(x: u64, y: u64, n: int)
    requires
        forall|i: int| !(#[trigger] bit(x, i) && bit(y, i)),
    ensures
        disc_count(x | y, n) == disc_count(x, n) + disc_count(y, n),
    decreases n,
{
    if n > 0 {
        lemma_disc_count_or(x, y, n - 1);
        lemma_bit_or(x, y, n - 1);
    }
}

proof fn lemma_disc_count_all(x: u64, n: int)
    requires
        0 <= n,
        forall|i: int| 0 <= i < n ==> #[trigger] bit(x, i),
    ensures
        disc_count(x, n) == n,
    decreases n,
{
    if n > 0 {
        lemma_disc_count_all(x, n - 1);
    }
}

proof fn lemma_listed_prefix_empty(b: Board, n: int)
    requires
        0 <= n <= 7,
        b.listed_prefix(n).len() == 0,
    ensures
        forall|j: int| 0 <= j < n ==> !b.top_free(#[trigger] move_order(j) as int),
    decreases n,
{
    if n > 0 {
        lemma_listed_prefix_len_mono(b, n - 1, n);
        lemma_listed_prefix_empty(b, n - 1);
    }
}

proof fn lemma_listed_prefix_len_mono(b: Board, m: int, n: int)
    requires
        0 <= m <= n,
    ensures
        b.listed_prefix(m).len() <= b.listed_prefix(n).len(),
    decreases n - m,
{
    if m < n {
        lemma_listed_prefix_len_mono(b, m, n - 1);
    }
}

/// A consistent position whose game is not over always lists a move: fewer
/// than 42 discs leave a clear cell, its column has room, and the mirrored
/// value of that column is listed.
pub proof fn lemma_unfinished_game_lists_a_move(b: Board)
    requires
        is_consistent(b),
        b.status() == GameStatus::Ongoing,
    ensures
        b.listed_moves().len() > 0,
{
    let occ = b.occupancy();
    lemma_disc_count_or(b.red, b.yellow, 42);
    if forall|i: int| 0 <= i < 42 ==> #[trigger] bit(occ, i) {
        lemma_disc_count_all(occ, 42);
    }
    let i = choose|i: int| 0 <= i < 42 && !#[trigger] bit(occ, i);
    let c = 7 - i % 7;
    let r = i / 7;
    assert(i == cell(c, r));
    lemma_landing_row(b, c);
    if b.landing_row(c) > r {
        assert(bit(occ, cell(c, r)));
    }
    assert(b.has_room(c));
    lemma_listed_value_mirrors_column(b, 8 - c);
    let v = 8 - c;
    let j: int = if v == 4 {
        0
    } else if v == 3 {
        1
    } else if v == 5 {
        2
    } else if v == 2 {
        3
    } else if v == 6 {
        4
    } else if v == 1 {
        5
    } else {
        6
    };
    assert(move_order(j) as int == v);
    if b.listed_moves().len() == 0 {
        lemma_listed_prefix_empty(b, 7);
        assert(!b.top_free(move_order(j) as int));
    }
}

} // verus!

verus! {

/// Where a game stands, read from the lines on the grid: a line of four red
/// discs (along a row, a column or either diagonal) means red has won; else
/// one of yellow's means yellow has won; else 42 moves make a draw; else the
/// game goes on.
pub proof fn lemma_status_reads_lines(b: Board)
    requires
        within_grid(b.red),
        within_grid(b.yellow),
    ensures
        has_line_of_four(b.red) ==> b.status() == (GameStatus::Connected { red_win: true }),
        !has_line_of_four(b.red) && has_line_of_four(b.yellow) ==> b.status() == (
        GameStatus::Connected { red_win: false }),
        !has_line_of_four(b.red) && !has_line_of_four(b.yellow) && b.nb_moves >= 42 ==> b.status()
            == GameStatus::Draw,
        !has_line_of_four(b.red) && !has_line_of_four(b.yellow) && b.nb_moves < 42 ==> b.status()
            == GameStatus::Ongoing,
{
    lemma_has_four_is_line_of_four(b.red);
    lemma_has_four_is_line_of_four(b.yellow);
}

/// Rank of the value `v` (1 to 7) in the listing order: the centre first,
/// then outwards, the left-hand value of each pair before the right-hand one.
pub open spec fn centre_rank(v: int) -> int {
    if v < 4 {
        2 * (4 - v) - 1
    } else {
        2 * (v - 4)
    }
}

proof fn lemma_listed_prefix_shape(b: Board, n: int)
    requires
        0 <= n <= 7,
    ensures
        forall|j: int|
            0 <= j < b.listed_prefix(n).len() ==> {
                let v = #[trigger] b.listed_prefix(n)[j] as int;
                &&& 1 <= v <= 7
                &&& centre_rank(v) < n
                &&& !bit(b.red | b.yellow, 34 + v)
            },
        forall|j: int, k: int|
            0 <= j < k < b.listed_prefix(n).len() ==> centre_rank(
                #[trigger] b.listed_prefix(n)[j] as int,
            ) < centre_rank(#[trigger] b.listed_prefix(n)[k] as int),
        forall|v: int|
            1 <= v <= 7 && centre_rank(v) < n && !bit(b.red | b.yellow, 34 + v) ==> exists|j: int|
                0 <= j < b.listed_prefix(n).len() && #[trigger] b.listed_prefix(n)[j] == v,
    decreases n,
{
    if n > 0 {
        lemma_listed_prefix_shape(b, n - 1);
        let p = b.listed_prefix(n - 1);
        let m = move_order(n - 1) as int;
        assert(1 <= m <= 7 && centre_rank(m) == n - 1);
        assert forall|v: int|
            1 <= v <= 7 && centre_rank(v) < n && !bit(b.red | b.yellow, 34 + v) implies exists|j: int|
            0 <= j < b.listed_prefix(n).len() && #[trigger] b.listed_prefix(n)[j] == v by {
            if centre_rank(v) < n - 1 {
                let j = choose|j: int| 0 <= j < p.len() && #[trigger] p[j] == v;
                assert(b.listed_prefix(n)[j] == v);
            } else {
                assert(v == m);
                assert(b.listed_prefix(n)[p.len() as int] == v);
            }
        }
    }
}

/// Whether `generate_moves` lists the value `v`.
pub open spec fn lists(b: Board, v: int) -> bool {
    exists|j: int| 0 <= j < b.listed_moves().len() && #[trigger] b.listed_moves()[j] == v
}

/// `generate_moves` lists exactly the values `v` (1 to 7) whose top-row
/// cell, bit `34 + v` of the occupied cells, is clear, each once, centre
/// first (see `centre_rank`).
pub proof fn lemma_listed_moves_are_clear_top_cells(b: Board)
    ensures
        forall|v: int| #[trigger] lists(b, v) <==> (1 <= v <= 7 && !bit(b.red | b.yellow, 34 + v)),
        forall|j: int, k: int|
            0 <= j < k < b.listed_moves().len() ==> centre_rank(
                #[trigger] b.listed_moves()[j] as int,
            ) < centre_rank(#[trigger] b.listed_moves()[k] as int),
{
    lemma_listed_prefix_shape(b, 7);
    assert forall|v: int| #[trigger] lists(b, v) implies (1 <= v <= 7 && !bit(
        b.red | b.yellow,
        34 + v,
    )) by {
        let j = choose|j: int| 0 <= j < b.listed_moves().len() && #[trigger] b.listed_moves()[j] == v;
        assert(b.listed_prefix(7)[j] == v);
    }
    assert forall|v: int| 1 <= v <= 7 && !bit(b.red | b.yellow, 34 + v) implies #[trigger] lists(
        b,
        v,
    ) by {
        assert(centre_rank(v) < 7);
    }
}

} // verus!
