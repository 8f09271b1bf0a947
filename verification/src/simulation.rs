use vstd::prelude::*;
use rand::rngs::ThreadRng;
use rand::RngExt;
use crate::game::{Board, GameStatus, has_four};
use crate::bits::bit;
use crate::rules::{
    is_consistent, lemma_empty_board_consistent, lemma_played_consistent,
    lemma_finished_game_length, lemma_unfinished_game_lists_a_move,
};

verus! {

/// `rand::rngs::ThreadRng`, the thread-local generator, carried through as
/// an opaque value.
#[verifier::external_type_specification]
#[verifier::external_body]
pub struct ExThreadRng(ThreadRng);

/// `rand::rng()`: a handle to the thread-local generator. Nothing is stated
/// of it; its source panics only when the operating system cannot seed it.
#[verifier::external_body]
fn thread_rng() -> ThreadRng {
    rand::rng()
}

/// `RngExt::random_range(0..n)`: its source returns a value of the range
/// `0..n` and panics when the range is empty, so `n` must be positive. Which
/// value comes out is left to chance and is not stated.
#[verifier::external_body]
fn random_below(rng: &mut ThreadRng, n: usize) -> (r: usize)
    requires
        n > 0,
    ensures
        r < n,
{
    rng.random_range(0..n)
}

/// Why a run of random games stopped short.
#[derive(Debug, Clone, Copy, PartialEq, Eq, Structural)]
pub enum PlayoutFault {
    /// The game is not over but no move is listed (this never comes from
    /// `random_playouts`, see its contract).
    NoListedMove,
    /// The chosen listed value names a column without room, which
    /// `make_move` refuses; the run stops there rather than draw again.
    ColumnFull(u8),
    /// The number of moves played no longer fits a `u32`.
    CountOverflow,
}

/// Plays the `pick`-th listed move of `board` and reports the new status;
/// when that column has no room (or the move count is at its limit) the
/// board is left as it was and the fault is returned.
pub fn play_listed_move(board: &mut Board, pick: usize) -> (r: Result<GameStatus, PlayoutFault>)
    requires
        pick < old(board).listed_moves().len(),
    ensures
        1 <= old(board).listed_moves()[pick as int] <= 7,
        ({
            let c = old(board).listed_moves()[pick as int];
            if old(board).has_room(c as int) && old(board).nb_moves < 255 {
                &&& *final(board) == old(board).played(c as int)
                &&& r == Ok::<GameStatus, PlayoutFault>(final(board).status())
            } else {
                &&& *final(board) == *old(board)
                &&& r == Err::<GameStatus, PlayoutFault>(PlayoutFault::ColumnFull(c))
            }
        }),
{
    proof {
        crate::search::lemma_listed_moves(*old(board));
    }
    let (count, moves) = board.generate_moves();
    let chosen_move = moves[pick];
    assert(chosen_move == old(board).listed_moves()[pick as int]);
    if !board.column_has_room(chosen_move) || board.nb_moves == 255 {
        return Err(PlayoutFault::ColumnFull(chosen_move));
    }
    board.make_move(chosen_move);
    Ok(board.get_game_status())
}

proof fn lemma_empty_board_ongoing()
    ensures
        (Board { red: 0, yellow: 0, nb_moves: 0, red_turn: true }).status() == GameStatus::Ongoing,
{
    assert forall|i: int| !#[trigger] bit(0u64, i) by {
        if 0 <= i < 64 {
            let p = i as u64;
            assert((0u64 >> p) & 1u64 == 0u64) by (bit_vector);
        }
    }
    assert(!has_four(0u64));
}

/// Plays `nb_games` games from the empty board, each move chosen uniformly
/// among the listed moves by the thread-local generator, until each game is
/// decided or drawn; returns the number of moves played, which lies between
/// 7 and 42 per game. A fault of the playout (see `PlayoutFault`) ends the
/// run.
pub fn random_playouts(nb_games: u32) -> (r: Result<u32, PlayoutFault>)
    ensures
        r matches Ok(n) ==> 7 * nb_games <= n <= 42 * nb_games,
        !(r matches Err(PlayoutFault::NoListedMove)),
        42 * nb_games <= u32::MAX ==> !(r matches Err(PlayoutFault::CountOverflow)),
        r matches Err(PlayoutFault::ColumnFull(c)) ==> 1 <= c <= 7,
        nb_games == 0 ==> r == Ok::<u32, PlayoutFault>(0),
{
    let mut my_rng = thread_rng();
    let mut nb_moves: u32 = 0;
    let mut game_board = Board::new();
    let mut g: u32 = 0;
    while g < nb_games
        invariant
            g <= nb_games,
            7 * g <= nb_moves <= 42 * g,
        decreases nb_games - g,
    {
        game_board.reset();
        proof {
            lemma_empty_board_ongoing();
            lemma_empty_board_consistent();
        }
        let ghost start = nb_moves;
        loop
            invariant_except_break
                game_board.status() == GameStatus::Ongoing,
                game_board.nb_moves < 42,
            invariant
                is_consistent(game_board),
                nb_moves - start == game_board.nb_moves,
                7 * g <= start <= 42 * g,
                g < nb_games,
            ensures
                start + 7 <= nb_moves <= start + 42,
            decreases 42 - game_board.nb_moves,
        {
            proof {
                lemma_unfinished_game_lists_a_move(game_board);
            }
            let (nb_moves_valid, moves) = game_board.generate_moves();
            if nb_moves_valid == 0 {
                return Err(PlayoutFault::NoListedMove);
            }
            let idx = random_below(&mut my_rng, nb_moves_valid);
            if nb_moves == u32::MAX {
                return Err(PlayoutFault::CountOverflow);
            }
            nb_moves += 1;
            let ghost before = game_board;
            let status = match play_listed_move(&mut game_board, idx) {
                Ok(s) => s,
                Err(e) => return Err(e),
            };
            proof {
                lemma_played_consistent(before, before.listed_moves()[idx as int] as int);
            }
            if status != GameStatus::Ongoing {
                proof {
                    lemma_finished_game_length(game_board);
                }
                break;
            }
        }
        g += 1;
    }
    Ok(nb_moves)
}

} // verus!
