use vstd::prelude::*;
use crate::game::{Board, GameStatus};
use crate::network::{
    board_keyword, parse_board,
    is_ws, is_whitespace, parse_unsigned, parse_unsigned_chars, decimal, append_decimal,
    lemma_decimal, lemma_parse_decimal,
};

verus! {

/// What a player's reply to `PLAY` asks for.
#[derive(Debug, Clone, Copy, PartialEq, Eq, Structural)]
pub enum MoveCommand {
    /// `MOVE` and a column number (0 to 255).
    Move(u8),
    /// `MOVE ` followed by something that is not such a number.
    Malformed,
    /// Anything else.
    Unknown,
}

/// `s` without its leading white space.
pub open spec fn trim_start(s: Seq<char>) -> Seq<char>
    decreases s.len(),
{
    if s.len() > 0 && is_ws(s[0]) {
        trim_start(s.drop_first())
    } else {
        s
    }
}

/// `s` without its trailing white space.
pub open spec fn trim_end(s: Seq<char>) -> Seq<char>
    decreases s.len(),
{
    if s.len() > 0 && is_ws(s.last()) {
        trim_end(s.drop_last())
    } else {
        s
    }
}

/// `s` without leading and trailing white space.
pub open spec fn trim(s: Seq<char>) -> Seq<char> {
    trim_end(trim_start(s))
}

pub open spec fn move_keyword() -> Seq<char> {
    seq!['M', 'O', 'V', 'E', ' ']
}

/// The command in a reply line: once trimmed, a line that begins with
/// `MOVE ` names a column when the rest, trimmed, reads as an integer from 0
/// to 255 (see `parse_unsigned`), and is malformed otherwise; any other line
/// is unknown.
pub open spec fn move_command(line: Seq<char>) -> MoveCommand {
    let m = trim(line);
    if m.len() >= 5 && m.take(5) == move_keyword() {
        match parse_unsigned(trim(m.skip(5)), 255) {
            Some(c) => MoveCommand::Move(c as u8),
            None => MoveCommand::Malformed,
        }
    } else {
        MoveCommand::Unknown
    }
}

proof fn lemma_trim_start_skip(s: Seq<char>, i: int)
    requires
        0 <= i <= s.len(),
        forall|j: int| 0 <= j < i ==> is_ws(#[trigger] s[j]),
    ensures
        trim_start(s) == trim_start(s.skip(i)),
    decreases i,
{
    if i > 0 {
        assert(s.drop_first().skip(i - 1) =~= s.skip(i));
        lemma_trim_start_skip(s.drop_first(), i - 1);
    } else {
        assert(s.skip(0) =~= s);
    }
}

proof fn lemma_trim_end_take(s: Seq<char>, k: int)
    requires
        0 <= k <= s.len(),
        forall|j: int| k <= j < s.len() ==> is_ws(#[trigger] s[j]),
    ensures
        trim_end(s) == trim_end(s.take(k)),
    decreases s.len() - k,
{
    if k < s.len() {
        assert(s.drop_last().take(k) =~= s.take(k));
        lemma_trim_end_take(s.drop_last(), k);
    } else {
        assert(s.take(k) =~= s);
    }
}

/// Bounds of `v[lo0..hi0]` once trimmed.
fn trimmed_range(v: &Vec<char>, lo0: usize, hi0: usize) -> (r: (usize, usize))
    requires
        lo0 <= hi0 <= v@.len(),
    ensures
        lo0 <= r.0 <= r.1 <= hi0,
        trim(v@.subrange(lo0 as int, hi0 as int)) == v@.subrange(r.0 as int, r.1 as int),
{
    let ghost s = v@.subrange(lo0 as int, hi0 as int);
    let mut lo = lo0;
    while lo < hi0 && is_whitespace(v[lo])
        invariant
            lo0 <= lo <= hi0 <= v@.len(),
            s == v@.subrange(lo0 as int, hi0 as int),
            forall|j: int| lo0 <= j < lo ==> is_ws(#[trigger] v@[j]),
        decreases hi0 - lo,
    {
        lo += 1;
    }
    proof {
        assert forall|j: int| 0 <= j < lo - lo0 implies is_ws(#[trigger] s[j]) by {
            assert(s[j] == v@[lo0 + j]);
        }
        lemma_trim_start_skip(s, lo - lo0);
        assert(s.skip(lo - lo0) =~= v@.subrange(lo as int, hi0 as int));
        let t = v@.subrange(lo as int, hi0 as int);
        if lo < hi0 {
            assert(!is_ws(t[0]));
        }
        assert(trim_start(t) == t);
    }
    let mut hi = hi0;
    while hi > lo && is_whitespace(v[hi - 1])
        invariant
            lo <= hi <= hi0 <= v@.len(),
            forall|j: int| hi <= j < hi0 ==> is_ws(#[trigger] v@[j]),
        decreases hi,
    {
        hi -= 1;
    }
    proof {
        let t = v@.subrange(lo as int, hi0 as int);
        assert forall|j: int| hi - lo <= j < t.len() implies is_ws(#[trigger] t[j]) by {
            assert(t[j] == v@[lo + j]);
        }
        lemma_trim_end_take(t, hi - lo);
        let u = v@.subrange(lo as int, hi as int);
        assert(t.take(hi - lo) =~= u);
        if hi > lo {
            assert(!is_ws(u.last()));
        }
        assert(trim_end(u) == u);
    }
    (lo, hi)
}

/// The characters of `s`.
fn chars_of(s: &str) -> (v: Vec<char>)
    ensures
        v@ == s@,
{
    let mut v: Vec<char> = Vec::new();
    for c in it: s.chars()
        invariant
            it.seq() == s@,
            v@ == s@.take(it.index() as int),
    {
        v.push(c);
        assert(v@ =~= s@.take(it.index() + 1));
    }
    assert(v@ =~= s@);
    v
}

/// A copy of `v[lo..hi]`.
fn copy_range(v: &Vec<char>, lo: usize, hi: usize) -> (r: Vec<char>)
    requires
        lo <= hi <= v@.len(),
    ensures
        r@ == v@.subrange(lo as int, hi as int),
{
    let mut r: Vec<char> = Vec::new();
    let mut k = lo;
    while k < hi
        invariant
            lo <= k <= hi <= v@.len(),
            r@ == v@.subrange(lo as int, k as int),
        decreases hi - k,
    {
        r.push(v[k]);
        k += 1;
        assert(r@ =~= v@.subrange(lo as int, k as int));
    }
    r
}

/// Reads the command in a player's reply line (see `move_command`).
pub fn parse_move_command(line: &str) -> (r: MoveCommand)
    ensures
        r == move_command(line@),
{
    let v = chars_of(line);
    assert(v@.subrange(0, v@.len() as int) =~= v@);
    let (lo, hi) = trimmed_range(&v, 0, v.len());
    let ghost m = v@.subrange(lo as int, hi as int);
    if hi - lo >= 5 && v[lo] == 'M' && v[lo + 1] == 'O' && v[lo + 2] == 'V' && v[lo + 3] == 'E'
        && v[lo + 4] == ' ' {
        assert(m.take(5) =~= move_keyword());
        let (a, b) = trimmed_range(&v, lo + 5, hi);
        assert(m.skip(5) =~= v@.subrange(lo + 5, hi as int));
        let digits = copy_range(&v, a, b);
        match parse_unsigned_chars(&digits, 255) {
            Some(c) => MoveCommand::Move(c as u8),
            None => MoveCommand::Malformed,
        }
    } else {
        proof {
            if m.len() >= 5 && m.take(5) == move_keyword() {
                assert(m[0] == m.take(5)[0]);
                assert(m[1] == m.take(5)[1]);
                assert(m[2] == m.take(5)[2]);
                assert(m[3] == m.take(5)[3]);
                assert(m[4] == m.take(5)[4]);
            }
        }
        MoveCommand::Unknown
    }
}

/// The reply that plays column `col`: `MOVE `, then `col` in decimal.
pub fn move_message(col: u8) -> (s: String)
    ensures
        s@ == move_keyword() + decimal(col as nat),
{
    let mut s = String::new();
    proof {
        reveal_strlit("MOVE ");
    }
    s.append("MOVE ");
    append_decimal(&mut s, col as u64);
    s
}

proof fn lemma_trim_of_word(w: Seq<char>)
    requires
        w.len() > 0,
        !is_ws(w[0]),
        !is_ws(w.last()),
    ensures
        trim(w) == w,
{
}

/// The reply that `move_message` writes for a column reads back as that
/// column.
pub proof fn lemma_move_message_round_trip(col: u8)
    ensures
        move_command(move_keyword() + decimal(col as nat)) == MoveCommand::Move(col),
{
    let d = decimal(col as nat);
    let m = move_keyword() + d;
    lemma_decimal(col as nat);
    assert(!is_ws(d.last()));
    assert(m.last() == d.last());
    lemma_trim_of_word(m);
    assert(m.take(5) =~= move_keyword());
    assert(m.skip(5) =~= d);
    assert(!is_ws(d[0]));
    lemma_trim_of_word(d);
    lemma_parse_decimal(col as nat, 255);
}

/// A line from the referee, as the players read it.
#[derive(Debug, Clone, Copy)]
pub enum ServerMessage {
    /// A line beginning with `COLOR`, and whether it mentions `RED` and
    /// `YELLOW`.
    Color { red: bool, yellow: bool },
    /// A line beginning with `BOARD`, and the position it describes if any.
    Position(Option<Board>),
    /// The line `PLAY`.
    Play,
    /// Anything else.
    Other,
}

pub open spec fn starts_with(s: Seq<char>, p: Seq<char>) -> bool {
    s.len() >= p.len() && s.take(p.len() as int) == p
}

pub open spec fn mentions(s: Seq<char>, p: Seq<char>) -> bool {
    exists|i: int| 0 <= i && i + p.len() <= s.len() && #[trigger] s.subrange(i, i + p.len()) == p
}

pub open spec fn color_keyword() -> Seq<char> {
    seq!['C', 'O', 'L', 'O', 'R']
}

pub open spec fn red_keyword() -> Seq<char> {
    seq!['R', 'E', 'D']
}

pub open spec fn yellow_keyword() -> Seq<char> {
    seq!['Y', 'E', 'L', 'L', 'O', 'W']
}

pub open spec fn play_keyword() -> Seq<char> {
    seq!['P', 'L', 'A', 'Y']
}

/// How a player reads a line from the referee: once trimmed, a line that
/// begins with `COLOR` gives the colour (the words `RED` and `YELLOW`
/// anywhere in it), one that begins with `BOARD` a position (see
/// `parse_board`), and the line `PLAY` asks for a move.
pub open spec fn server_message(line: Seq<char>) -> ServerMessage {
    let m = trim(line);
    if starts_with(m, color_keyword()) {
        ServerMessage::Color { red: mentions(m, red_keyword()), yellow: mentions(m, yellow_keyword()) }
    } else if starts_with(m, board_keyword()) {
        ServerMessage::Position(parse_board(line))
    } else if m == play_keyword() {
        ServerMessage::Play
    } else {
        ServerMessage::Other
    }
}

/// Whether `v[lo..hi]` begins with `p`.
fn range_starts_with(v: &Vec<char>, lo: usize, hi: usize, p: &Vec<char>) -> (r: bool)
    requires
        lo <= hi <= v@.len(),
    ensures
        r == starts_with(v@.subrange(lo as int, hi as int), p@),
{
    let ghost s = v@.subrange(lo as int, hi as int);
    if hi - lo < p.len() {
        return false;
    }
    let mut j: usize = 0;
    while j < p.len()
        invariant
            lo <= hi <= v@.len(),
            p@.len() <= hi - lo,
            s == v@.subrange(lo as int, hi as int),
            j <= p@.len(),
            forall|q: int| 0 <= q < j ==> v@[lo + q] == p@[q],
        decreases p@.len() - j,
    {
        if v[lo + j] != p[j] {
            assert(s.take(p@.len() as int)[j as int] == v@[lo + j]);
            return false;
        }
        j += 1;
    }
    assert(s.take(p@.len() as int) =~= p@);
    true
}

/// Whether `p` occurs in `v[lo..hi]`.
fn range_mentions(v: &Vec<char>, lo: usize, hi: usize, p: &Vec<char>) -> (r: bool)
    requires
        lo <= hi <= v@.len(),
        p@.len() > 0,
    ensures
        r == mentions(v@.subrange(lo as int, hi as int), p@),
{
    let ghost s = v@.subrange(lo as int, hi as int);
    if hi - lo < p.len() {
        return false;
    }
    let limit = hi - p.len();
    let mut i: usize = lo;
    while i <= limit
        invariant
            lo <= i <= limit + 1,
            limit == hi - p@.len(),
            p@.len() > 0,
            lo <= hi <= v@.len(),
            p@.len() <= hi - lo,
            s == v@.subrange(lo as int, hi as int),
            forall|q: int|
                0 <= q < i - lo ==> #[trigger] s.subrange(q, q + p@.len()) != p@,
        decreases limit + 1 - i,
    {
        let found = range_starts_with(v, i, hi, p);
        assert(v@.subrange(i as int, hi as int).take(p@.len() as int) =~= s.subrange(
            i - lo,
            i - lo + p@.len(),
        ));
        if found {
            return true;
        }
        i += 1;
    }
    assert forall|q: int| 0 <= q && q + p@.len() <= s.len() implies #[trigger] s.subrange(
        q,
        q + p@.len(),
    ) != p@ by {
        assert(q < i - lo);
    }
    false
}

/// Reads a line from the referee (see `server_message`).
pub fn read_server_message(line: &str) -> (r: ServerMessage)
    ensures
        r == server_message(line@),
{
    let v = chars_of(line);
    assert(v@.subrange(0, v@.len() as int) =~= v@);
    let (lo, hi) = trimmed_range(&v, 0, v.len());
    let color = vec!['C', 'O', 'L', 'O', 'R'];
    let board = vec!['B', 'O', 'A', 'R', 'D'];
    let red = vec!['R', 'E', 'D'];
    let yellow = vec!['Y', 'E', 'L', 'L', 'O', 'W'];
    let play = vec!['P', 'L', 'A', 'Y'];
    assert(color@ == color_keyword());
    assert(board@ == board_keyword());
    assert(red@ == red_keyword());
    assert(yellow@ == yellow_keyword());
    assert(play@ == play_keyword());
    if range_starts_with(&v, lo, hi, &color) {
        ServerMessage::Color {
            red: range_mentions(&v, lo, hi, &red),
            yellow: range_mentions(&v, lo, hi, &yellow),
        }
    } else if range_starts_with(&v, lo, hi, &board) {
        ServerMessage::Position(Board::from_network_string(line))
    } else if hi - lo == 4 && range_starts_with(&v, lo, hi, &play) {
        let ghost m = v@.subrange(lo as int, hi as int);
        assert(m.take(4) =~= m);
        ServerMessage::Play
    } else {
        proof {
            let m = v@.subrange(lo as int, hi as int);
            if m == play_keyword() {
                assert(m.take(4) =~= m);
            }
        }
        ServerMessage::Other
    }
}

/// Reads a column number typed by a player: the trimmed input as an integer
/// from 0 to 255 (see `parse_unsigned`).
pub fn read_column(input: &str) -> (r: Option<u8>)
    ensures
        r matches Some(c) ==> parse_unsigned(trim(input@), 255) == Some(c as nat),
        r is None ==> parse_unsigned(trim(input@), 255) is None,
{
    let v = chars_of(input);
    assert(v@.subrange(0, v@.len() as int) =~= v@);
    let (lo, hi) = trimmed_range(&v, 0, v.len());
    let digits = copy_range(&v, lo, hi);
    match parse_unsigned_chars(&digits, 255) {
        Some(c) => Some(c as u8),
        None => None,
    }
}

/// What the referee makes of a player's reply to `PLAY`.
#[derive(Debug, Clone, Copy, PartialEq, Eq, Structural)]
pub enum RefereeOutcome {
    /// The move was played; the game now stands so.
    Played(GameStatus),
    /// `MOVE` named a column that `make_move` refuses (outside `1..=7` or
    /// full); the same player is asked again.
    Refused(u8),
    /// `MOVE ` followed by something that is not a column number.
    Malformed,
    /// Any other reply.
    Unknown,
}

/// One turn of the referee: reads the reply (see `move_command`) and plays
/// the move it names, if `make_move` accepts it. The board changes only when
/// the move is played.
pub fn referee_step(board: &mut Board, reply: &str) -> (r: RefereeOutcome)
    requires
        move_command(reply@) matches MoveCommand::Move(c) && 1 <= c <= 7 && old(board).has_room(
            c as int,
        ) ==> old(board).nb_moves < 255,
    ensures
        match move_command(reply@) {
            MoveCommand::Move(c) => if 1 <= c <= 7 && old(board).has_room(c as int) {
                &&& *final(board) == old(board).played(c as int)
                &&& r == RefereeOutcome::Played(final(board).status())
            } else {
                &&& *final(board) == *old(board)
                &&& r == RefereeOutcome::Refused(c)
            },
            MoveCommand::Malformed => *final(board) == *old(board) && r
                == RefereeOutcome::Malformed,
            MoveCommand::Unknown => *final(board) == *old(board) && r == RefereeOutcome::Unknown,
        },
{
    match parse_move_command(reply) {
        MoveCommand::Move(col) => {
            if board.make_move(col) {
                RefereeOutcome::Played(board.get_game_status())
            } else {
                RefereeOutcome::Refused(col)
            }
        },
        MoveCommand::Malformed => RefereeOutcome::Malformed,
        MoveCommand::Unknown => RefereeOutcome::Unknown,
    }
}

} // verus!
