use vstd::prelude::*;
use crate::bits::bit;
use crate::game::Board;
use crate::geometry::{cell, on_grid};
use crate::network::decimal;

verus! {

/// The two characters that show cell `i`: `R ` for a red disc, `Y ` for a
/// yellow one (red wins where both are set), `. ` for a clear cell.
pub open spec fn glyph(b: Board, i: int) -> Seq<char> {
    if bit(b.red, i) {
        seq!['R', ' ']
    } else if bit(b.yellow, i) {
        seq!['Y', ' ']
    } else {
        seq!['.', ' ']
    }
}

/// The cells from 41 down to `n`, each followed by a line break when it ends
/// a row (its index is a multiple of 7).
pub open spec fn grid_text_from(b: Board, n: int) -> Seq<char>
    decreases 42 - n,
{
    if n >= 42 {
        seq![]
    } else {
        grid_text_from(b, n + 1) + glyph(b, n) + if n % 7 == 0 {
            seq!['\n']
        } else {
            seq![]
        }
    }
}

/// What `Board::terminal_text` shows: a line with the number of moves
/// played, the six rows from the top (column 1 on the left), then an empty
/// line.
pub open spec fn terminal_view(b: Board) -> Seq<char> {
    "Nombre de coups joués : "@ + decimal(b.nb_moves as nat) + seq!['\n'] + grid_text_from(b, 0)
        + seq!['\n']
}

impl Board {
    /// The board as text for a terminal (see `terminal_view`).
    pub fn terminal_text(&self) -> (s: String)
        ensures
            s@ == terminal_view(*self),
    {
        let mut s = String::new();
        s.append("Nombre de coups joués : ");
        crate::network::append_decimal(&mut s, self.nb_moves as u64);
        proof {
            reveal_strlit("\n");
        }
        s.append("\n");
        let ghost head = s@;
        let mut i: u8 = 42;
        while i > 0
            invariant
                i <= 42,
                s@ == head + grid_text_from(*self, i as int),
            decreases i,
        {
            i -= 1;
            let ghost before = s@;
            let mask: u64 = 1 << i;
            proof {
                reveal_strlit("\n");
                reveal_strlit("R ");
                reveal_strlit("Y ");
                reveal_strlit(". ");
                let k = i as u64;
                let red = self.red;
                let yellow = self.yellow;
                assert(k < 64 ==> ((red & (1u64 << k)) > 0 <==> (red >> k) & 1u64 == 1u64))
                    by (bit_vector);
                assert(k < 64 ==> ((yellow & (1u64 << k)) > 0 <==> (yellow >> k) & 1u64 == 1u64))
                    by (bit_vector);
                assert((1u64 << i) == (1u64 << (i as u64))) by (bit_vector)
                    requires
                        i < 64u8,
                ;
            }
            if self.red & mask > 0 {
                s.append("R ");
            } else if self.yellow & mask > 0 {
                s.append("Y ");
            } else {
                s.append(". ");
            }
            assert(s@ == before + glyph(*self, i as int));
            if i % 7 == 0 {
                s.append("\n");
            }
            assert(s@ =~= head + grid_text_from(*self, i as int));
        }
        s.append("\n");
        s
    }
}

} // verus!

verus! {

/// The character that shows the cell in column `col` and row `row`: `R`
/// for a red disc, `Y` for a yellow one, `.` for a clear cell.
pub open spec fn disc_char(b: Board, col: int, row: int) -> char {
    if bit(b.red, cell(col, row)) {
        'R'
    } else if bit(b.yellow, cell(col, row)) {
        'Y'
    } else {
        '.'
    }
}

proof fn lemma_grid_text(b: Board, n: int)
    requires
        0 <= n <= 42,
    ensures
        grid_text_from(b, n).len() == 2 * (42 - n) + 6 - (n + 6) / 7,
        forall|p: int|
            n <= p < 42 ==> {
                let at = 15 * (5 - p / 7) + 2 * (6 - p % 7);
                &&& grid_text_from(b, n)[at] == (#[trigger] glyph(b, p))[0]
                &&& grid_text_from(b, n)[at + 1] == ' '
                &&& p % 7 == 0 ==> grid_text_from(b, n)[15 * (5 - p / 7) + 14] == '\n'
            },
    decreases 42 - n,
{
    if n < 42 {
        lemma_grid_text(b, n + 1);
        let g1 = grid_text_from(b, n + 1);
        let g = grid_text_from(b, n);
        let a = n / 7;
        let j = n % 7;
        assert(n == 7 * a + j && 0 <= j < 7);
        assert((n + 7) / 7 == a + 1);
        assert((n + 6) / 7 == if j == 0 { a } else { a + 1 });
        assert(g1.len() == 15 * (5 - a) + 2 * (6 - j));
        let gl = glyph(b, n);
        let tail = if n % 7 == 0 {
            seq!['\n']
        } else {
            seq![]
        };
        assert(g == g1 + gl + tail);
        assert(gl.len() == 2 && gl[1] == ' ');
        assert forall|p: int| n <= p < 42 implies {
            let at = 15 * (5 - p / 7) + 2 * (6 - p % 7);
            &&& g[at] == (#[trigger] glyph(b, p))[0]
            &&& g[at + 1] == ' '
            &&& p % 7 == 0 ==> g[15 * (5 - p / 7) + 14] == '\n'
        } by {
            let pa = p / 7;
            let pj = p % 7;
            assert(p == 7 * pa + pj && 0 <= pj < 7);
            if p > n {
                assert(pa > a || (pa == a && pj > j));
                let at = 15 * (5 - pa) + 2 * (6 - pj);
                assert(at + 1 < g1.len());
                assert(g[at] == g1[at]);
                assert(g[at + 1] == g1[at + 1]);
                assert(g1[at] == glyph(b, p)[0]);
                assert(g1[at + 1] == ' ');
                if pj == 0 {
                    assert(pa > a);
                    assert(15 * (5 - pa) + 14 < g1.len());
                    assert(g[15 * (5 - pa) + 14] == g1[15 * (5 - pa) + 14]);
                }
            } else {
                assert(pa == a && pj == j);
                let at = g1.len() as int;
                assert(g[at] == gl[0]);
                assert(g[at + 1] == gl[1]);
                assert(at == 15 * (5 - p / 7) + 2 * (6 - p % 7));
                if pj == 0 {
                    assert(g[at + 2] == tail[0]);
                }
            }
        }
    }
}

/// What the terminal shows: the line with the number of moves, then six
/// lines of 15 characters, the top row of the grid first, each cell in
/// column `col` shown at position `2 * (col - 1)` of its line followed by a
/// space, each line ending with a line break, and an empty last line.
pub proof fn lemma_terminal_rows(b: Board)
    ensures
        ({
            let t = terminal_view(b);
            let head = "Nombre de coups joués : "@ + decimal(b.nb_moves as nat) + seq!['\n'];
            let h = head.len() as int;
            &&& t.len() == h + 91
            &&& t.subrange(0, h) == head
            &&& t[h + 90] == '\n'
            &&& forall|col: int, row: int|
                on_grid(col, row) ==> {
                    &&& t[h + 15 * (5 - row) + 2 * (col - 1)] == #[trigger] disc_char(b, col, row)
                    &&& t[h + 15 * (5 - row) + 2 * (col - 1) + 1] == ' '
                    &&& t[h + 15 * (5 - row) + 14] == '\n'
                }
        }),
{
    let t = terminal_view(b);
    let head = "Nombre de coups joués : "@ + decimal(b.nb_moves as nat) + seq!['\n'];
    let h = head.len() as int;
    let g = grid_text_from(b, 0);
    lemma_grid_text(b, 0);
    assert(t == head + g + seq!['\n']);
    assert(t.subrange(0, h) =~= head);
    assert(g.len() == 90);
    assert(t[h + 90] == '\n');
    assert forall|col: int, row: int| on_grid(col, row) implies {
        &&& t[h + 15 * (5 - row) + 2 * (col - 1)] == #[trigger] disc_char(b, col, row)
        &&& t[h + 15 * (5 - row) + 2 * (col - 1) + 1] == ' '
        &&& t[h + 15 * (5 - row) + 14] == '\n'
    } by {
        let p = cell(col, row);
        assert(p / 7 == row && p % 7 == 7 - col);
        assert(glyph(b, p)[0] == disc_char(b, col, row));
        let q = 7 * row;
        assert(q / 7 == row && q % 7 == 0);
        assert(glyph(b, q).len() == 2);
        let at = 15 * (5 - row) + 2 * (col - 1);
        assert(at == 15 * (5 - p / 7) + 2 * (6 - p % 7));
        assert(g[at] == glyph(b, p)[0]);
        assert(g[at + 1] == ' ');
        assert(g[15 * (5 - q / 7) + 14] == '\n');
        assert(t[h + at] == g[at]);
        assert(t[h + at + 1] == g[at + 1]);
        assert(t[h + 15 * (5 - row) + 14] == g[15 * (5 - row) + 14]);
    }
}

} // verus!
