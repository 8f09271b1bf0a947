use board::{Board, GameStatus};

fn fields(b: &Board) -> (u64, u64, u8, bool) {
    (b.red, b.yellow, b.nb_moves, b.red_turn)
}

fn play_all(cols: &[u8]) -> Board {
    let mut b = Board::new();
    for &c in cols {
        assert!(b.make_move(c));
    }
    b
}

#[test]
fn new_board_is_empty_with_red_to_move() {
    let b = Board::new();
    assert_eq!(fields(&b), (0, 0, 0, true));
}

#[test]
fn reset_gives_the_new_board() {
    let mut b = play_all(&[4, 3, 5]);
    b.reset();
    assert_eq!(fields(&b), fields(&Board::new()));
}

#[test]
fn first_move_lands_at_the_bottom_of_its_column() {
    let mut b = Board::new();
    assert!(b.make_move(4));
    assert_eq!(fields(&b), (1 << 3, 0, 1, false));
    assert!(b.make_move(4));
    assert_eq!(fields(&b), (1 << 3, 1 << 10, 2, true));
    assert!(b.make_move(1));
    assert_eq!(fields(&b), ((1 << 3) | (1 << 6), 1 << 10, 3, false));
    assert!(b.make_move(7));
    assert_eq!(fields(&b), ((1 << 3) | (1 << 6), (1 << 10) | 1, 4, true));
}

#[test]
fn make_move_refuses_columns_outside_the_grid() {
    let mut b = play_all(&[2]);
    let before = fields(&b);
    assert!(!b.make_move(0));
    assert!(!b.make_move(8));
    assert!(!b.make_move(255));
    assert_eq!(fields(&b), before);
}

#[test]
fn make_move_refuses_a_full_column_and_keeps_the_turn() {
    let mut b = play_all(&[1, 1, 1, 1, 1, 1]);
    assert_eq!(fields(&b), (17180917824, 2199157481472, 6, true));
    assert!(!b.make_move(1));
    assert_eq!(fields(&b), (17180917824, 2199157481472, 6, true));
    assert!(b.make_move(7));
    assert_eq!(fields(&b), (17180917824 | 1, 2199157481472, 7, false));
}

#[test]
fn make_move_clears_bits_outside_the_grid_of_the_mover() {
    let mut b = Board { red: 1 << 50, yellow: 1 << 60, nb_moves: 0, red_turn: true };
    assert!(b.make_move(7));
    assert_eq!(fields(&b), (1, 1 << 60, 1, false));
}

#[test]
fn make_move_fills_the_lowest_clear_cell_even_under_a_floating_disc() {
    // Column 7 has a disc in row 2 only; the new disc lands in row 0.
    let mut b = Board { red: 1 << 14, yellow: 0, nb_moves: 1, red_turn: false };
    assert!(b.make_move(7));
    assert_eq!(fields(&b), (1 << 14, 1, 2, true));
}

#[test]
fn generate_moves_on_the_empty_board_lists_every_value_centre_first() {
    let b = Board::new();
    assert_eq!(b.generate_moves(), (7, [4, 3, 5, 2, 6, 1, 7]));
}

#[test]
fn generate_moves_reads_the_top_row_mirrored() {
    // Column 1 is full; its top cell is bit 41, which `generate_moves`
    // reads as the value 7, while the value 1 stays listed.
    let b = play_all(&[1, 1, 1, 1, 1, 1]);
    assert_eq!(b.generate_moves(), (6, [4, 3, 5, 2, 6, 1, 0]));
    assert!(!b.column_has_room(1));
    assert!(b.column_has_room(7));
}

#[test]
fn column_has_room_until_six_discs() {
    let mut b = Board::new();
    for _ in 0..6 {
        assert!(b.column_has_room(3));
        assert!(b.make_move(3));
    }
    assert!(!b.column_has_room(3));
    assert!(b.column_has_room(4));
}

#[test]
fn has_won_recognises_each_direction() {
    assert!(Board::has_won(0b1111));
    assert!(Board::has_won(0b1111000));
    assert!(Board::has_won(1 | (1 << 7) | (1 << 14) | (1 << 21)));
    assert!(Board::has_won(1 | (1 << 8) | (1 << 16) | (1 << 24)));
    assert!(Board::has_won((1 << 3) | (1 << 9) | (1 << 15) | (1 << 21)));
}

#[test]
fn has_won_rejects_broken_lines() {
    assert!(!Board::has_won(0));
    assert!(!Board::has_won(0b111));
    // Bits 4 to 7 span two rows.
    assert!(!Board::has_won(0b1111_0000));
    assert!(!Board::has_won(1 | (1 << 7) | (1 << 14)));
    assert!(!Board::has_won(1 | (1 << 8) | (1 << 16) | (1 << 23)));
}

#[test]
fn has_won_looks_at_raw_bits_above_the_grid_for_columns() {
    assert!(Board::has_won((1 << 42) | (1 << 49) | (1 << 56) | (1 << 63)));
}

#[test]
fn game_status_checks_red_then_yellow_then_the_move_count() {
    let both = Board { red: 0b1111, yellow: 0b1111 << 7, nb_moves: 8, red_turn: true };
    assert_eq!(both.get_game_status(), GameStatus::Connected { red_win: true });
    let yellow = Board { red: 0, yellow: 0b1111 << 7, nb_moves: 8, red_turn: true };
    assert_eq!(yellow.get_game_status(), GameStatus::Connected { red_win: false });
    let full = Board { red: 0, yellow: 0, nb_moves: 42, red_turn: true };
    assert_eq!(full.get_game_status(), GameStatus::Draw);
    assert_eq!(Board::new().get_game_status(), GameStatus::Ongoing);
}

#[test]
fn a_vertical_four_ends_the_game() {
    let b = play_all(&[4, 1, 4, 1, 4, 2, 4]);
    assert_eq!(b.get_game_status(), GameStatus::Connected { red_win: true });
}

#[test]
fn terminal_text_of_the_empty_board() {
    let mut expected = String::from("Nombre de coups joués : 0\n");
    for _ in 0..6 {
        expected.push_str(". . . . . . . \n");
    }
    expected.push('\n');
    assert_eq!(Board::new().terminal_text(), expected);
}

#[test]
fn terminal_text_shows_column_one_on_the_left() {
    let b = play_all(&[1, 4]);
    let text = b.terminal_text();
    let lines: Vec<&str> = text.split('\n').collect();
    assert_eq!(lines[0], "Nombre de coups joués : 2");
    assert_eq!(lines[6], "R . . Y . . . ");
    assert_eq!(lines[5], ". . . . . . . ");
}
