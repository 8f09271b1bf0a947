use board::{
    move_message, parse_move_command, read_column, read_server_message, referee_step, Board,
    GameStatus, MoveCommand, RefereeOutcome, ServerMessage,
};

fn fields(b: &Board) -> (u64, u64, u8, bool) {
    (b.red, b.yellow, b.nb_moves, b.red_turn)
}

#[test]
fn network_string_of_positions() {
    let mut b = Board::new();
    assert_eq!(b.to_network_string(), "BOARD 0 0 0 1");
    b.make_move(4);
    assert_eq!(b.to_network_string(), "BOARD 8 0 1 0");
    b.make_move(4);
    assert_eq!(b.to_network_string(), "BOARD 8 1024 2 1");
    let big = Board { red: u64::MAX, yellow: 1234567890, nb_moves: 255, red_turn: false };
    assert_eq!(big.to_network_string(), "BOARD 18446744073709551615 1234567890 255 0");
}

#[test]
fn network_string_round_trip() {
    let boards = [
        Board::new(),
        Board { red: 8, yellow: 1024, nb_moves: 2, red_turn: true },
        Board { red: u64::MAX, yellow: 0, nb_moves: 255, red_turn: false },
        Board { red: 0x2aaa_aaaa_aaa, yellow: 0x1555_5555_555, nb_moves: 42, red_turn: true },
    ];
    for b in boards.iter() {
        let back = Board::from_network_string(&b.to_network_string()).unwrap();
        assert_eq!(fields(&back), fields(b));
    }
}

#[test]
fn from_network_string_accepts_white_space_and_signs() {
    let b = Board::from_network_string("  BOARD\t8   0 1 +1 \n").unwrap();
    assert_eq!(fields(&b), (8, 0, 1, true));
    let b = Board::from_network_string("BOARD 007 0 0 2").unwrap();
    assert_eq!(fields(&b), (7, 0, 0, false));
    let b = Board::from_network_string("BOARD 18446744073709551615 0 0 01").unwrap();
    assert_eq!(fields(&b), (u64::MAX, 0, 0, true));
}

#[test]
fn from_network_string_rejects_malformed_messages() {
    assert!(Board::from_network_string("").is_none());
    assert!(Board::from_network_string("BOARD 8 0 1").is_none());
    assert!(Board::from_network_string("BOARD 8 0 1 0 0").is_none());
    assert!(Board::from_network_string("board 8 0 1 0").is_none());
    assert!(Board::from_network_string("BOARD 8 0 256 0").is_none());
    assert!(Board::from_network_string("BOARD 8 0 1 256").is_none());
    assert!(Board::from_network_string("BOARD -1 0 1 0").is_none());
    assert!(Board::from_network_string("BOARD + 0 1 0").is_none());
    assert!(Board::from_network_string("BOARD ++1 0 1 0").is_none());
    assert!(Board::from_network_string("BOARD 18446744073709551616 0 0 1").is_none());
    assert!(Board::from_network_string("BOARD x 0 1 0").is_none());
}

#[test]
fn move_commands() {
    assert_eq!(parse_move_command("MOVE 3"), MoveCommand::Move(3));
    assert_eq!(parse_move_command("  MOVE   4  \n"), MoveCommand::Move(4));
    assert_eq!(parse_move_command("MOVE +9"), MoveCommand::Move(9));
    assert_eq!(parse_move_command("MOVE 255"), MoveCommand::Move(255));
    assert_eq!(parse_move_command("MOVE 256"), MoveCommand::Malformed);
    assert_eq!(parse_move_command("MOVE x"), MoveCommand::Malformed);
    assert_eq!(parse_move_command("MOVE "), MoveCommand::Unknown);
    assert_eq!(parse_move_command("MOVE"), MoveCommand::Unknown);
    assert_eq!(parse_move_command("HELLO"), MoveCommand::Unknown);
    assert_eq!(parse_move_command("move 3"), MoveCommand::Unknown);
}

#[test]
fn move_message_reads_back() {
    for c in [0u8, 1, 4, 7, 10, 255] {
        let m = move_message(c);
        assert_eq!(m, format!("MOVE {}", c));
        assert_eq!(parse_move_command(&m), MoveCommand::Move(c));
    }
}

#[test]
fn server_messages() {
    match read_server_message("COLOR RED\n") {
        ServerMessage::Color { red, yellow } => assert!(red && !yellow),
        _ => panic!("expected a colour"),
    }
    match read_server_message("COLOR YELLOW") {
        ServerMessage::Color { red, yellow } => assert!(!red && yellow),
        _ => panic!("expected a colour"),
    }
    match read_server_message("BOARD 8 0 1 0") {
        ServerMessage::Position(Some(b)) => assert_eq!(fields(&b), (8, 0, 1, false)),
        _ => panic!("expected a position"),
    }
    match read_server_message("BOARD nonsense") {
        ServerMessage::Position(None) => {},
        _ => panic!("expected an unreadable position"),
    }
    assert!(matches!(read_server_message(" PLAY \r\n"), ServerMessage::Play));
    assert!(matches!(read_server_message("PLAYS"), ServerMessage::Other));
    assert!(matches!(read_server_message("hello"), ServerMessage::Other));
}

#[test]
fn typed_columns() {
    assert_eq!(read_column(" 3\n"), Some(3));
    assert_eq!(read_column("+7"), Some(7));
    assert_eq!(read_column("abc"), None);
    assert_eq!(read_column("300"), None);
    assert_eq!(read_column(""), None);
}

#[test]
fn referee_steps() {
    let mut b = Board::new();
    assert_eq!(referee_step(&mut b, "MOVE 4\n"), RefereeOutcome::Played(GameStatus::Ongoing));
    assert_eq!(fields(&b), (8, 0, 1, false));
    assert_eq!(referee_step(&mut b, "MOVE 9"), RefereeOutcome::Refused(9));
    assert_eq!(referee_step(&mut b, "MOVE x"), RefereeOutcome::Malformed);
    assert_eq!(referee_step(&mut b, "PASS"), RefereeOutcome::Unknown);
    assert_eq!(fields(&b), (8, 0, 1, false));
    let mut full = Board::new();
    for _ in 0..6 {
        referee_step(&mut full, "MOVE 2");
    }
    let before = fields(&full);
    assert_eq!(referee_step(&mut full, "MOVE 2"), RefereeOutcome::Refused(2));
    assert_eq!(fields(&full), before);
    let mut win = Board::new();
    for m in ["MOVE 4", "MOVE 1", "MOVE 4", "MOVE 1", "MOVE 4", "MOVE 1"] {
        referee_step(&mut win, m);
    }
    assert_eq!(
        referee_step(&mut win, "MOVE 4"),
        RefereeOutcome::Played(GameStatus::Connected { red_win: true })
    );
}
