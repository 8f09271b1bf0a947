use vstd::prelude::*;
use crate::game::Board;

verus! {

/// Unicode `White_Space` (what `char::is_whitespace` tests).
pub open spec fn is_ws(c: char) -> bool {
    let u = c as u32;
    ||| 9 <= u <= 13
    ||| u == 32
    ||| u == 0x85
    ||| u == 0xA0
    ||| u == 0x1680
    ||| 0x2000 <= u <= 0x200A
    ||| u == 0x2028
    ||| u == 0x2029
    ||| u == 0x202F
    ||| u == 0x205F
    ||| u == 0x3000
}

/// Whether `c` is a white-space character (see `is_ws`).
pub fn is_whitespace(c: char) -> (r: bool)
    ensures
        r == is_ws(c),
{
    let u = c as u32;
    (9 <= u && u <= 13) || u == 32 || u == 0x85 || u == 0xA0 || u == 0x1680 || (0x2000 <= u && u
        <= 0x200A) || u == 0x2028 || u == 0x2029 || u == 0x202F || u == 0x205F || u == 0x3000
}

/// The words of `s` separated by white space, where `cur` is a word already
/// begun before `s`.
pub open spec fn words_from(s: Seq<char>, cur: Seq<char>) -> Seq<Seq<char>>
    decreases s.len(),
{
    if s.len() == 0 {
        if cur.len() == 0 {
            seq![]
        } else {
            seq![cur]
        }
    } else if is_ws(s[0]) {
        if cur.len() == 0 {
            words_from(s.drop_first(), seq![])
        } else {
            seq![cur] + words_from(s.drop_first(), seq![])
        }
    } else {
        words_from(s.drop_first(), cur.push(s[0]))
    }
}

/// The non-empty maximal runs of non-white-space characters of `s`, in order.
pub open spec fn words(s: Seq<char>) -> Seq<Seq<char>> {
    words_from(s, seq![])
}

pub open spec fn is_digit(c: char) -> bool {
    48 <= c as u32 <= 57
}

pub open spec fn digit_value(c: char) -> nat {
    (c as u32 - 48) as nat
}

/// Value of a string of decimal digits.
pub open spec fn digits_value(s: Seq<char>) -> nat
    decreases s.len(),
{
    if s.len() == 0 {
        0
    } else {
        digits_value(s.drop_last()) * 10 + digit_value(s.last())
    }
}

pub open spec fn all_digits(s: Seq<char>) -> bool {
    forall|i: int| 0 <= i < s.len() ==> is_digit(#[trigger] s[i])
}

/// Reading of an unsigned integer at most `max` as `str::parse` does it: an
/// optional leading `+`, then one or more decimal digits whose value is at
/// most `max`.
pub open spec fn parse_unsigned(s: Seq<char>, max: nat) -> Option<nat> {
    let d = if s.len() > 0 && s[0] == '+' {
        s.drop_first()
    } else {
        s
    };
    if d.len() == 0 || !all_digits(d) || digits_value(d) > max {
        None
    } else {
        Some(digits_value(d))
    }
}

pub open spec fn board_keyword() -> Seq<char> {
    seq!['B', 'O', 'A', 'R', 'D']
}

/// A position read from a message: five words, the keyword `BOARD`, then the
/// red bitboard, the yellow bitboard, the move count and the turn, each an
/// unsigned integer (the last two at most 255); red is to move when the last
/// one is 1.
pub open spec fn parse_board(s: Seq<char>) -> Option<Board> {
    let w = words(s);
    if w.len() == 5 && w[0] == board_keyword() {
        match (
            parse_unsigned(w[1], u64::MAX as nat),
            parse_unsigned(w[2], u64::MAX as nat),
            parse_unsigned(w[3], 255),
            parse_unsigned(w[4], 255),
        ) {
            (Some(red), Some(yellow), Some(nb_moves), Some(turn)) => Some(
                Board {
                    red: red as u64,
                    yellow: yellow as u64,
                    nb_moves: nb_moves as u8,
                    red_turn: turn == 1,
                },
            ),
            _ => None,
        }
    } else {
        None
    }
}

/// The character of decimal digit `d`.
pub open spec fn digit_char(d: nat) -> char {
    if d == 0 {
        '0'
    } else if d == 1 {
        '1'
    } else if d == 2 {
        '2'
    } else if d == 3 {
        '3'
    } else if d == 4 {
        '4'
    } else if d == 5 {
        '5'
    } else if d == 6 {
        '6'
    } else if d == 7 {
        '7'
    } else if d == 8 {
        '8'
    } else {
        '9'
    }
}

/// Decimal notation of `n`, without leading zeros.
pub open spec fn decimal(n: nat) -> Seq<char>
    decreases n,
{
    if n < 10 {
        seq![digit_char(n)]
    } else {
        decimal(n / 10).push(digit_char(n % 10))
    }
}

/// The message that describes `b`: `BOARD`, the red bitboard, the yellow
/// bitboard, the move count and 1 or 0 for the turn (1 when red is to move),
/// separated by single spaces.
pub open spec fn encoding(b: Board) -> Seq<char> {
    board_keyword() + seq![' '] + decimal(b.red as nat) + seq![' '] + decimal(b.yellow as nat)
        + seq![' '] + decimal(b.nb_moves as nat) + seq![' '] + seq![
        if b.red_turn {
            '1'
        } else {
            '0'
        },
    ]
}

fn digit_str(d: u64) -> (s: &'static str)
    requires
        d < 10,
    ensures
        s@ == seq![digit_char(d as nat)],
{
    if d == 0 {
        proof {
            reveal_strlit("0");
        }
        "0"
    } else if d == 1 {
        proof {
            reveal_strlit("1");
        }
        "1"
    } else if d == 2 {
        proof {
            reveal_strlit("2");
        }
        "2"
    } else if d == 3 {
        proof {
            reveal_strlit("3");
        }
        "3"
    } else if d == 4 {
        proof {
            reveal_strlit("4");
        }
        "4"
    } else if d == 5 {
        proof {
            reveal_strlit("5");
        }
        "5"
    } else if d == 6 {
        proof {
            reveal_strlit("6");
        }
        "6"
    } else if d == 7 {
        proof {
            reveal_strlit("7");
        }
        "7"
    } else if d == 8 {
        proof {
            reveal_strlit("8");
        }
        "8"
    } else {
        proof {
            reveal_strlit("9");
        }
        "9"
    }
}

pub(crate) fn append_decimal(s: &mut String, n: u64)
    ensures
        final(s)@ == old(s)@ + decimal(n as nat),
    decreases n,
{
    if n >= 10 {
        append_decimal(s, n / 10);
    }
    let d = digit_str(n % 10);
    s.append(d);
    proof {
        if n >= 10 {
            assert(decimal(n as nat) == decimal((n / 10) as nat).push(digit_char((n % 10) as nat)));
        }
    }
}


proof fn lemma_digits_value_prefix(d: Seq<char>, k: int)
    requires
        0 <= k <= d.len(),
    ensures
        digits_value(d.take(k)) <= digits_value(d),
    decreases d.len() - k,
{
    if k < d.len() {
        lemma_digits_value_prefix(d, k + 1);
        assert(d.take(k + 1).drop_last() == d.take(k));
    } else {
        assert(d.take(k) == d);
    }
}

/// Reads an unsigned integer at most `max` from `t` (see `parse_unsigned`).
pub(crate) fn parse_unsigned_chars(t: &Vec<char>, max: u64) -> (r: Option<u64>)
    requires
        max >= 9,
    ensures
        r matches Some(v) ==> parse_unsigned(t@, max as nat) == Some(v as nat),
        r is None ==> parse_unsigned(t@, max as nat) is None,
{
    let n = t.len();
    if n == 0 {
        return None;
    }
    let mut start: usize = 0;
    if t[0] == '+' {
        start = 1;
    }
    if start == n {
        return None;
    }
    let ghost d = if t@.len() > 0 && t@[0] == '+' {
        t@.drop_first()
    } else {
        t@
    };
    assert(d == t@.skip(start as int));
    let mut v: u64 = 0;
    let mut i: usize = start;
    while i < n
        invariant
            start <= i <= n,
            n == t@.len(),
            d == t@.skip(start as int),
            d == (if t@.len() > 0 && t@[0] == '+' {
                t@.drop_first()
            } else {
                t@
            }),
            d.len() > 0,
            max >= 9,
            v == digits_value(d.take(i - start)),
            v <= max,
            forall|j: int| 0 <= j < i - start ==> is_digit(#[trigger] d[j]),
        decreases n - i,
    {
        let c = t[i];
        let code = c as u32;
        assert(d[i - start] == c);
        if code < 48 || code > 57 {
            assert(!all_digits(d));
            return None;
        }
        let dig = (code - 48) as u64;
        assert(d.take(i + 1 - start).drop_last() == d.take(i - start));
        if v > (max - dig) / 10 {
            proof {
                if all_digits(d) {
                    lemma_digits_value_prefix(d, i + 1 - start);
                }
            }
            return None;
        }
        v = v * 10 + dig;
        i += 1;
    }
    assert(d.take(n - start) == d);
    Some(v)
}

fn is_board_keyword(w: &Vec<char>) -> (r: bool)
    ensures
        r == (w@ == board_keyword()),
{
    let r = w.len() == 5 && w[0] == 'B' && w[1] == 'O' && w[2] == 'A' && w[3] == 'R' && w[4]
        == 'D';
    proof {
        if r {
            assert(w@ == board_keyword());
        }
    }
    r
}

/// Splits `data` into its words (see `words`).
fn split_words(data: &str) -> (r: Vec<Vec<char>>)
    ensures
        r@.len() == words(data@).len(),
        forall|i: int| 0 <= i < r@.len() ==> #[trigger] r@[i]@ == words(data@)[i],
{
    let mut out: Vec<Vec<char>> = Vec::new();
    let mut cur: Vec<char> = Vec::new();
    assert(data@.skip(0) == data@);
    assert(out@.map_values(|v: Vec<char>| v@) == Seq::<Seq<char>>::empty());
    for c in it: data.chars()
        invariant
            it.seq() == data@,
            words(data@) == out@.map_values(|v: Vec<char>| v@) + words_from(
                data@.skip(it.index() as int),
                cur@,
            ),
    {
        let ghost idx = it.index() as int;
        let ghost rest = data@.skip(idx);
        let ghost before = out@.map_values(|v: Vec<char>| v@);
        assert(c == data@[idx]);
        assert(rest[0] == c);
        assert(rest.drop_first() =~= data@.skip(idx + 1));
        if is_whitespace(c) {
            if cur.len() > 0 {
                let w = cur;
                cur = Vec::new();
                out.push(w);
                assert(out@.map_values(|v: Vec<char>| v@) =~= before.push(w@));
                assert(words_from(rest, w@) == seq![w@] + words_from(data@.skip(idx + 1), seq![]));
                assert(before + (seq![w@] + words_from(data@.skip(idx + 1), seq![])) =~= before.push(
                    w@,
                ) + words_from(data@.skip(idx + 1), seq![]));
                assert(cur@ =~= Seq::<char>::empty());
            } else {
                assert(cur@ =~= Seq::<char>::empty());
            }
        } else {
            cur.push(c);
        }
    }
    assert(data@.skip(data@.len() as int).len() == 0);
    let ghost before = out@.map_values(|v: Vec<char>| v@);
    if cur.len() > 0 {
        out.push(cur);
        assert(out@.map_values(|v: Vec<char>| v@) == before.push(cur@));
    }
    out
}

impl Board {
    /// Reads a board from a message (see `parse_board`): `None` unless the
    /// message is `BOARD` and four unsigned integers, the last two at most
    /// 255, separated by white space.
    pub fn from_network_string(data: &str) -> (r: Option<Board>)
        ensures
            r == parse_board(data@),
    {
        let parts = split_words(data);
        if parts.len() == 5 && is_board_keyword(&parts[0]) {
            let red = match parse_unsigned_chars(&parts[1], u64::MAX) {
                Some(v) => v,
                None => return None,
            };
            let yellow = match parse_unsigned_chars(&parts[2], u64::MAX) {
                Some(v) => v,
                None => return None,
            };
            let nb_moves = match parse_unsigned_chars(&parts[3], 255) {
                Some(v) => v as u8,
                None => return None,
            };
            let red_turn = match parse_unsigned_chars(&parts[4], 255) {
                Some(v) => v == 1,
                None => return None,
            };
            Some(Board { red, yellow, nb_moves, red_turn })
        } else {
            None
        }
    }

    /// The message describing this board (see `encoding`).
    pub fn to_network_string(&self) -> (s: String)
        ensures
            s@ == encoding(*self),
    {
        let mut s = String::new();
        proof {
            reveal_strlit("BOARD ");
            reveal_strlit(" ");
            reveal_strlit("1");
            reveal_strlit("0");
        }
        s.append("BOARD ");
        append_decimal(&mut s, self.red);
        s.append(" ");
        append_decimal(&mut s, self.yellow);
        s.append(" ");
        append_decimal(&mut s, self.nb_moves as u64);
        s.append(" ");
        if self.red_turn {
            s.append("1");
        } else {
            s.append("0");
        }
        assert(s@ == encoding(*self));
        s
    }
}

} // verus!

verus! {

pub open spec fn no_ws(w: Seq<char>) -> bool {
    forall|i: int| 0 <= i < w.len() ==> !is_ws(#[trigger] w[i])
}

proof fn lemma_words_from_word(w: Seq<char>, s: Seq<char>, cur: Seq<char>)
    requires
        no_ws(w),
    ensures
        words_from(w + s, cur) == words_from(s, cur + w),
    decreases w.len(),
{
    if w.len() == 0 {
        assert(w + s =~= s);
        assert(cur + w =~= cur);
    } else {
        assert((w + s)[0] == w[0]);
        assert((w + s).drop_first() =~= w.drop_first() + s);
        lemma_words_from_word(w.drop_first(), s, cur.push(w[0]));
        assert(cur.push(w[0]) + w.drop_first() =~= cur + w);
    }
}

proof fn lemma_words_from_space(s: Seq<char>, cur: Seq<char>)
    requires
        cur.len() > 0,
    ensures
        words_from(seq![' '] + s, cur) == seq![cur] + words_from(s, seq![]),
{
    assert((seq![' '] + s)[0] == ' ');
    assert((seq![' '] + s).drop_first() =~= s);
}

proof fn lemma_digit_char(d: nat)
    requires
        d < 10,
    ensures
        is_digit(digit_char(d)),
        digit_value(digit_char(d)) == d,
        !is_ws(digit_char(d)),
{
}

pub proof fn lemma_decimal(n: nat)
    ensures
        decimal(n).len() > 0,
        all_digits(decimal(n)),
        no_ws(decimal(n)),
        digits_value(decimal(n)) == n,
    decreases n,
{
    lemma_digit_char(n % 10);
    if n < 10 {
        assert(decimal(n).drop_last() =~= Seq::<char>::empty());
        assert(n % 10 == n);
        assert(digits_value(decimal(n)) == digits_value(decimal(n).drop_last()) * 10 + digit_value(
            decimal(n).last(),
        ));
    } else {
        lemma_decimal(n / 10);
        let d = decimal(n);
        assert(d.drop_last() =~= decimal(n / 10));
        assert(d.last() == digit_char(n % 10));
        assert(digits_value(d) == digits_value(d.drop_last()) * 10 + digit_value(d.last()));
        assert(digits_value(d) == (n / 10) * 10 + n % 10);
        assert forall|i: int| 0 <= i < d.len() implies is_digit(#[trigger] d[i]) && !is_ws(d[i]) by {
            if i < d.len() - 1 {
                assert(d[i] == decimal(n / 10)[i]);
            }
        }
    }
}

pub proof fn lemma_parse_decimal(n: nat, max: nat)
    requires
        n <= max,
    ensures
        parse_unsigned(decimal(n), max) == Some(n),
{
    lemma_decimal(n);
    assert(is_digit(decimal(n)[0]));
}

/// Reading back the message that describes a board gives that board.
pub proof fn lemma_network_round_trip(b: Board)
    ensures
        parse_board(encoding(b)) == Some(b),
{
    let k = board_keyword();
    let d1 = decimal(b.red as nat);
    let d2 = decimal(b.yellow as nat);
    let d3 = decimal(b.nb_moves as nat);
    let t = seq![
        if b.red_turn {
            '1'
        } else {
            '0'
        },
    ];
    lemma_decimal(b.red as nat);
    lemma_decimal(b.yellow as nat);
    lemma_decimal(b.nb_moves as nat);
    let sp = seq![' '];
    let r4 = t;
    let r3 = d3 + (sp + r4);
    let r2 = d2 + (sp + r3);
    let r1 = d1 + (sp + r2);
    assert(encoding(b) =~= k + (sp + r1));
    assert(no_ws(k));
    assert(no_ws(t));
    let e = Seq::<char>::empty();
    lemma_words_from_word(k, sp + r1, e);
    assert(e + k =~= k);
    lemma_words_from_space(r1, k);
    lemma_words_from_word(d1, sp + r2, e);
    assert(e + d1 =~= d1);
    lemma_words_from_space(r2, d1);
    lemma_words_from_word(d2, sp + r3, e);
    assert(e + d2 =~= d2);
    lemma_words_from_space(r3, d2);
    lemma_words_from_word(d3, sp + r4, e);
    assert(e + d3 =~= d3);
    lemma_words_from_space(r4, d3);
    lemma_words_from_word(t, e, e);
    assert(t + e =~= t);
    assert(e + t =~= t);
    let w = words(encoding(b));
    assert(w =~= seq![k, d1, d2, d3, t]);
    lemma_parse_decimal(b.red as nat, u64::MAX as nat);
    lemma_parse_decimal(b.yellow as nat, u64::MAX as nat);
    lemma_parse_decimal(b.nb_moves as nat, 255);
    if b.red_turn {
        assert(t == decimal(1));
        lemma_parse_decimal(1, 255);
    } else {
        assert(t == decimal(0));
        lemma_parse_decimal(0, 255);
    }
}

} // verus!
