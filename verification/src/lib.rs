//! A Connect Four engine on 64-bit bitboards: the board and its rules, a
//! line-based protocol between a referee and its players, a terminal
//! rendering, random playouts, and a depth-limited negamax search with
//! alpha-beta pruning.

pub mod bits;
pub mod geometry;
pub mod game;
pub mod rules;
pub mod eval;
pub mod search;
pub mod network;
pub mod command;
pub mod display;
pub mod simulation;

pub use game::{Board, GameStatus};
pub use eval::evaluate;
pub use search::{negamax, try_negamax, SCORE_LOSS, INF};
pub use command::{
    MoveCommand, RefereeOutcome, ServerMessage, parse_move_command, move_message, read_server_message,
    read_column, referee_step,
};
pub use simulation::{PlayoutFault, random_playouts, play_listed_move};
