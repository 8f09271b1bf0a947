use board::{evaluate, negamax, play_listed_move, random_playouts, try_negamax, Board, GameStatus, PlayoutFault, INF, SCORE_LOSS};

fn play_all(cols: &[u8]) -> Board {
    let mut b = Board::new();
    for &c in cols {
        assert!(b.make_move(c));
    }
    b
}

#[test]
fn evaluate_counts_weighted_discs_per_column() {
    assert_eq!(evaluate(&Board::new()), 0);
    let b = play_all(&[4]);
    // Yellow to move; red's disc sits in the centre column (weight 5).
    assert_eq!(evaluate(&b), -5);
    let b = play_all(&[4, 1]);
    assert_eq!(evaluate(&b), 5 - 1);
}

#[test]
fn evaluate_changes_sign_with_the_turn() {
    let b = play_all(&[4, 3, 3, 5, 2]);
    let flipped = Board { red_turn: !b.red_turn, ..b };
    assert_eq!(evaluate(&flipped), -evaluate(&b));
}

#[test]
fn negamax_at_a_decided_position() {
    let b = play_all(&[4, 1, 4, 1, 4, 2, 4]);
    assert_eq!(negamax(&b, 5, -INF, INF), (SCORE_LOSS + 7, 0, 0));
}

#[test]
fn negamax_at_depth_zero_is_the_evaluation() {
    let b = play_all(&[4, 3]);
    assert_eq!(negamax(&b, 0, -INF, INF), (evaluate(&b), 0, 0));
}

#[test]
fn negamax_takes_an_immediate_win() {
    let b = play_all(&[4, 1, 4, 1, 4, 2]);
    assert_eq!(negamax(&b, 1, -INF, INF), (-(SCORE_LOSS + 7), 4, 7));
    let (score, col, _) = negamax(&b, 3, -INF, INF);
    assert_eq!((score, col), (-(SCORE_LOSS + 7), 4));
}

#[test]
fn negamax_blocks_a_threat() {
    // Red threatens to complete column 4; yellow must answer there.
    let b = play_all(&[4, 1, 4, 2, 4]);
    let (score, col, _) = negamax(&b, 2, -INF, INF);
    assert_eq!(col, 4);
    assert!(score > SCORE_LOSS + 100);
}

#[test]
fn try_negamax_agrees_with_negamax() {
    let b = play_all(&[4, 3, 5]);
    assert_eq!(try_negamax(&b, 3, -INF, INF), Some(negamax(&b, 3, -INF, INF)));
}

#[test]
fn negamax_searches_a_refused_column_as_the_same_position() {
    // Column 1 is full but the value 1 is listed (see generate_moves):
    // make_move refuses it, so that child is the position itself.
    let b = play_all(&[1, 1, 1, 1, 1, 1]);
    let r = negamax(&b, 1, -INF, INF);
    assert_eq!(try_negamax(&b, 1, -INF, INF), Some(r));
    assert_eq!(r.2, 6);
}

#[test]
fn negamax_needs_no_window_negation_at_a_leaf() {
    let decided = play_all(&[4, 1, 4, 1, 4, 2, 4]);
    assert_eq!(negamax(&decided, 5, i32::MIN, i32::MIN), (SCORE_LOSS + 7, 0, 0));
    let b = play_all(&[4, 3]);
    assert_eq!(negamax(&b, 0, i32::MIN, i32::MIN), (evaluate(&b), 0, 0));
}

#[test]
fn try_negamax_reports_arithmetic_faults() {
    let b = play_all(&[4, 3]);
    assert_eq!(try_negamax(&b, 1, i32::MIN, INF), None);
    assert_eq!(try_negamax(&b, 1, -INF, i32::MIN), None);
    assert_eq!(try_negamax(&b, i32::MIN, -INF, INF), None);
}

#[test]
fn play_listed_move_plays_the_chosen_entry() {
    let mut b = Board::new();
    assert_eq!(play_listed_move(&mut b, 0), Ok(GameStatus::Ongoing));
    assert_eq!((b.red, b.nb_moves), (1 << 3, 1));
    let mut full = play_all(&[1, 1, 1, 1, 1, 1]);
    assert_eq!(play_listed_move(&mut full, 5), Err(PlayoutFault::ColumnFull(1)));
    assert_eq!(full.nb_moves, 6);
}

#[test]
fn random_playouts_stay_within_bounds() {
    assert_eq!(random_playouts(0), Ok(0));
    for _ in 0..20 {
        match random_playouts(20) {
            Ok(n) => assert!(7 * 20 <= n && n <= 42 * 20),
            Err(PlayoutFault::ColumnFull(c)) => assert!((1..=7).contains(&c)),
            Err(e) => panic!("unexpected fault {:?}", e),
        }
    }
}
