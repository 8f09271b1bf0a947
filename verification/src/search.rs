use vstd::prelude::*;
use crate::game::{Board, GameStatus};
use crate::eval::{evaluation, evaluate, lemma_evaluation_bound};

verus! {

/// Score of a position where the opponent of the player to move has just
/// connected four, before the bonus for the number of moves played.
pub const SCORE_LOSS: i32 = -10_000_000;

/// Bound used as "infinity" by the search.
pub const INF: i32 = 2_000_000_000;

/// Largest absolute score that the search produces.
pub open spec fn score_bound() -> int {
    10_000_000
}

/// Depth-limited negamax value of `b` for the player to move: a decided
/// game scores `SCORE_LOSS` plus the number of moves, a draw 0; at depth 0
/// the static evaluation; with no listed move 0; otherwise the best of the
/// negated values of the children that `make_move` gives for the listed
/// values at one less depth (a refused move leaves the position as it was).
/// A negative depth searches until the game is decided; at depth `i32::MIN`
/// the search can go no deeper and the value is 0.
pub open spec fn value(b: Board, depth: int) -> int
    decreases 42 - b.nb_moves, depth - i32::MIN, 8int,
{
    match b.status() {
        GameStatus::Connected { .. } => SCORE_LOSS + b.nb_moves,
        GameStatus::Draw => 0,
        GameStatus::Ongoing => {
            if depth == 0 {
                evaluation(b)
            } else if b.listed_moves().len() == 0 || depth <= i32::MIN {
                0
            } else {
                best_child_value(b, depth, 0)
            }
        },
    }
}

/// Best negated value of the children reached by the listed moves from
/// position `i` on.
pub open spec fn best_child_value(b: Board, depth: int, i: int) -> int
    decreases 42 - b.nb_moves, depth - i32::MIN, 7 - i,
{
    let ms = b.listed_moves();
    if b.nb_moves >= 42 || depth <= i32::MIN || i < 0 || i >= 7 || i >= ms.len() {
        0
    } else {
        let v = -value(b.after_move(ms[i] as int), depth - 1);
        if i + 1 >= ms.len() {
            v
        } else {
            let rest = best_child_value(b, depth, i + 1);
            if v >= rest {
                v
            } else {
                rest
            }
        }
    }
}

/// What `negamax` computes: `(score, column, nodes, ok)`. `ok` says that
/// the search runs without an arithmetic fault: wherever it searches the
/// children of a position, the depth is above `i32::MIN` and the window
/// bounds can be negated, and the node count fits an `i32`.
pub open spec fn search(b: Board, depth: int, alpha: int, beta: int) -> (int, u8, int, bool)
    decreases 42 - b.nb_moves, depth - i32::MIN, 8int,
{
    match b.status() {
        GameStatus::Connected { .. } => (SCORE_LOSS + b.nb_moves, 0, 0, true),
        GameStatus::Draw => (0, 0, 0, true),
        GameStatus::Ongoing => {
            if depth == 0 {
                (evaluation(b), 0, 0, true)
            } else if b.listed_moves().len() == 0 {
                (0, 0, 0, true)
            } else if depth <= i32::MIN {
                (0, 0, 0, false)
            } else {
                search_from(b, depth, alpha, beta, 0, -INF, b.listed_moves()[0], 0, true)
            }
        },
    }
}

/// The move loop of the search from position `i` of the listed moves, with
/// the current window bound `alpha`, best score, best column, node count and
/// fault flag. After each child the window bound rises to the child's score
/// if that is higher, and the loop stops once it reaches `beta`.
pub open spec fn search_from(
    b: Board,
    depth: int,
    alpha: int,
    beta: int,
    i: int,
    best: int,
    col: u8,
    sim: int,
    ok: bool,
) -> (int, u8, int, bool)
    decreases 42 - b.nb_moves, depth - i32::MIN, 7 - i,
{
    let ms = b.listed_moves();
    if b.nb_moves >= 42 || depth <= i32::MIN || i < 0 || i >= 7 || i >= ms.len() {
        (best, col, sim, ok)
    } else {
        let c = ms[i];
        let child = search(b.after_move(c as int), depth - 1, -beta, -alpha);
        let score = -child.0;
        let sim2 = sim + child.2 + 1;
        let ok2 = ok && alpha > i32::MIN && beta > i32::MIN && child.3 && sim2 <= i32::MAX;
        let best2 = if score > best {
            score
        } else {
            best
        };
        let col2 = if score > best {
            c
        } else {
            col
        };
        let alpha2 = if score > alpha {
            score
        } else {
            alpha
        };
        if alpha2 >= beta {
            (best2, col2, sim2, ok2)
        } else {
            search_from(b, depth, alpha2, beta, i + 1, best2, col2, sim2, ok2)
        }
    }
}

/// The alpha-beta guarantee: a result at or below `alpha` bounds the value
/// from above, one at or above `beta` bounds it from below, and one strictly
/// inside the window is the value.
pub open spec fn within_window(r: int, v: int, alpha: int, beta: int) -> bool {
    &&& r <= alpha ==> v <= r
    &&& r >= beta ==> v >= r
    &&& alpha < r < beta ==> v == r
}

proof fn lemma_listed_prefix(b: Board, n: int)
    requires
        0 <= n <= 7,
    ensures
        b.listed_prefix(n).len() <= n,
        forall|j: int|
            0 <= j < b.listed_prefix(n).len() ==> 1 <= #[trigger] b.listed_prefix(n)[j] <= 7,
    decreases n,
{
    if n > 0 {
        lemma_listed_prefix(b, n - 1);
    }
}

pub proof fn lemma_listed_moves(b: Board)
    ensures
        b.listed_moves().len() <= 7,
        forall|j: int|
            0 <= j < b.listed_moves().len() ==> 1 <= #[trigger] b.listed_moves()[j] <= 7,
{
    lemma_listed_prefix(b, 7);
}

proof fn lemma_search_from_fault(
    b: Board,
    depth: int,
    alpha: int,
    beta: int,
    i: int,
    best: int,
    col: u8,
    sim: int,
)
    ensures
        !search_from(b, depth, alpha, beta, i, best, col, sim, false).3,
    decreases 7 - i,
{
    let ms = b.listed_moves();
    if !(b.nb_moves >= 42 || depth <= i32::MIN || i < 0 || i >= 7 || i >= ms.len()) {
        let c = ms[i];
        let child = search(b.after_move(c as int), depth - 1, -beta, -alpha);
        let score = -child.0;
        let alpha2 = if score > alpha {
            score
        } else {
            alpha
        };
        let best2 = if score > best {
            score
        } else {
            best
        };
        let col2 = if score > best {
            c
        } else {
            col
        };
        lemma_search_from_fault(b, depth, alpha2, beta, i + 1, best2, col2, sim + child.2 + 1);
    }
}

/// Scores, node counts and their bounds.
pub proof fn lemma_search_bounds(b: Board, depth: int, alpha: int, beta: int)
    ensures
        -score_bound() <= search(b, depth, alpha, beta).0 <= score_bound(),
        search(b, depth, alpha, beta).2 >= 0,
    decreases 42 - b.nb_moves, depth - i32::MIN, 8int,
{
    lemma_evaluation_bound(b);
    if b.status() == GameStatus::Ongoing && depth != 0 && b.listed_moves().len() != 0 && depth
        > i32::MIN {
        lemma_search_from_bounds(b, depth, alpha, beta, 0, -INF, b.listed_moves()[0], 0, true);
    }
}

proof fn lemma_search_from_bounds(
    b: Board,
    depth: int,
    alpha: int,
    beta: int,
    i: int,
    best: int,
    col: u8,
    sim: int,
    ok: bool,
)
    requires
        b.status() == GameStatus::Ongoing,
        depth > i32::MIN,
        0 <= i < b.listed_moves().len(),
        best == -INF || -score_bound() <= best <= score_bound(),
        sim >= 0,
    ensures
        -score_bound() <= search_from(b, depth, alpha, beta, i, best, col, sim, ok).0
            <= score_bound(),
        search_from(b, depth, alpha, beta, i, best, col, sim, ok).2 >= sim,
    decreases 42 - b.nb_moves, depth - i32::MIN, 7 - i,
{
    reveal_with_fuel(search_from, 2);
    lemma_listed_moves(b);
    let ms = b.listed_moves();
    let c = ms[i];
    assert(b.after_move(c as int).nb_moves == b.nb_moves + 1 || b.after_move(c as int) == b);
    lemma_search_bounds(b.after_move(c as int), depth - 1, -beta, -alpha);
    let child = search(b.after_move(c as int), depth - 1, -beta, -alpha);
    let score = -child.0;
    let alpha2 = if score > alpha {
        score
    } else {
        alpha
    };
    let best2 = if score > best {
        score
    } else {
        best
    };
    let col2 = if score > best {
        c
    } else {
        col
    };
    let ok2 = ok && alpha > i32::MIN && beta > i32::MIN && child.3 && sim + child.2 + 1
        <= i32::MAX;
    if alpha2 < beta && i + 1 < ms.len() {
        lemma_search_from_bounds(b, depth, alpha2, beta, i + 1, best2, col2, sim + child.2 + 1, ok2);
    }
}

/// Depth-limited negamax search with alpha-beta pruning: returns the score
/// of `board` for the player to move, the column chosen (0 at a leaf) and
/// the number of nodes searched below `board`.
pub fn negamax(board: &Board, depth: i32, alpha: i32, beta: i32) -> (r: (i32, u8, i32))
    requires
        search(*board, depth as int, alpha as int, beta as int).3,
    ensures
        r.0 == search(*board, depth as int, alpha as int, beta as int).0,
        r.1 == search(*board, depth as int, alpha as int, beta as int).1,
        r.2 == search(*board, depth as int, alpha as int, beta as int).2,
        alpha < beta ==> within_window(r.0 as int, value(*board, depth as int), alpha as int, beta as int),
        alpha < r.0 < beta && board.status() == GameStatus::Ongoing && depth != 0
            && board.listed_moves().len() > 0 ==> exists|j: int|
            #[trigger] first_reaching(*board, depth as int, j, r.0 as int)
                && board.listed_moves()[j] == r.1,
    decreases 42 - board.nb_moves, depth - i32::MIN,
{
    let ghost b = *board;
    let ghost result = search(b, depth as int, alpha as int, beta as int);
    proof {
        lemma_search_bounds(b, depth as int, alpha as int, beta as int);
        if alpha < beta {
            lemma_search_window(b, depth as int, alpha as int, beta as int);
        }
    }
    let mut alpha = alpha;
    let status = board.get_game_status();
    match status {
        GameStatus::Connected { red_win: _ } => return (SCORE_LOSS + board.nb_moves as i32, 0, 0),
        GameStatus::Draw => return (0, 0, 0),
        GameStatus::Ongoing => {},
    }
    if depth == 0 {
        return (evaluate(board), 0, 0);
    }
    let (nb_moves, moves) = board.generate_moves();
    if nb_moves == 0 {
        return (0, 0, 0);
    }
    let ghost ms = b.listed_moves();
    proof {
        lemma_listed_moves(b);
    }
    let mut best_col = moves[0];
    let mut best_score = -INF;
    let mut sim: i32 = 0;
    let mut i: usize = 0;
    while i < nb_moves
        invariant_except_break
            0 <= i <= nb_moves,
            i == 0 ==> best_score == -INF,
            i > 0 ==> -score_bound() <= best_score <= score_bound(),
            sim >= 0,
            search_from(
                b,
                depth as int,
                alpha as int,
                beta as int,
                i as int,
                best_score as int,
                best_col,
                sim as int,
                true,
            ) == result,
        invariant
            b == *board,
            b.status() == GameStatus::Ongoing,
            depth != 0,
            ms == b.listed_moves(),
            nb_moves == ms.len(),
            0 < nb_moves <= 7,
            forall|j: int| 0 <= j < nb_moves ==> moves@[j] == ms[j],
            forall|j: int| 0 <= j < nb_moves ==> 1 <= #[trigger] ms[j] <= 7,
            depth > i32::MIN,
            result.3,
        ensures
            best_score == result.0,
            best_col == result.1,
            sim == result.2,
        decreases nb_moves - i,
    {
        let col = moves[i];
        let ghost child_b = b.after_move(col as int);
        let ghost child = search(child_b, depth - 1, -beta, -alpha);
        let ghost ok2 = alpha > i32::MIN && beta > i32::MIN && child.3 && sim + child.2 + 1
            <= i32::MAX;
        proof {
            lemma_search_bounds(child_b, depth - 1, -beta, -alpha);
            let score = -child.0;
            let alpha2 = if score > alpha {
                score
            } else {
                alpha as int
            };
            let best2 = if score > best_score {
                score
            } else {
                best_score as int
            };
            let col2 = if score > best_score {
                col
            } else {
                best_col
            };
            if !ok2 && alpha2 < beta {
                lemma_search_from_fault(
                    b,
                    depth as int,
                    alpha2,
                    beta as int,
                    i + 1,
                    best2,
                    col2,
                    sim + child.2 + 1,
                );
            }
            assert(ok2);
        }
        let mut new_board = board.clone();
        new_board.make_move(col);
        let (mut score, _, nb_sim) = negamax(&new_board, depth - 1, -beta, -alpha);
        score = -score;
        sim += nb_sim + 1;
        if score > best_score {
            best_score = score;
            best_col = col;
        }
        if score > alpha {
            alpha = score;
        }
        if alpha >= beta {
            break;
        }
        i += 1;
    }
    (best_score, best_col, sim)
}


/// The search of `negamax`, checked: `None` where `negamax` would fault
/// (a depth below `i32::MIN`, a window bound of `i32::MIN` to negate, or a
/// node count beyond `i32::MAX`), and otherwise what `negamax` returns.
pub fn try_negamax(board: &Board, depth: i32, alpha: i32, beta: i32) -> (r: Option<(i32, u8, i32)>)
    ensures
        r is Some <==> search(*board, depth as int, alpha as int, beta as int).3,
        r matches Some(t) ==> t.0 == search(*board, depth as int, alpha as int, beta as int).0
            && t.1 == search(*board, depth as int, alpha as int, beta as int).1 && t.2 == search(
            *board,
            depth as int,
            alpha as int,
            beta as int,
        ).2,
        0 <= depth && alpha > i32::MIN && beta > i32::MIN && search(
            *board,
            depth as int,
            alpha as int,
            beta as int,
        ).2 <= i32::MAX ==> r is Some,
        r matches Some(t) ==> (alpha < beta ==> within_window(
            t.0 as int,
            value(*board, depth as int),
            alpha as int,
            beta as int,
        )),
        r matches Some(t) ==> (alpha < t.0 < beta && board.status() == GameStatus::Ongoing && depth
            != 0 && board.listed_moves().len() > 0 ==> exists|j: int|
            #[trigger] first_reaching(*board, depth as int, j, t.0 as int)
                && board.listed_moves()[j] == t.1),
    decreases 42 - board.nb_moves, depth - i32::MIN,
{
    let ghost b = *board;
    let ghost result = search(b, depth as int, alpha as int, beta as int);
    proof {
        lemma_search_bounds(b, depth as int, alpha as int, beta as int);
        if 0 <= depth && alpha > i32::MIN && beta > i32::MIN && result.2 <= i32::MAX {
            lemma_search_faults_only_on_overflow(b, depth as int, alpha as int, beta as int);
        }
        if alpha < beta {
            lemma_search_window(b, depth as int, alpha as int, beta as int);
        }
    }
    let mut alpha = alpha;
    let status = board.get_game_status();
    match status {
        GameStatus::Connected { red_win: _ } => return Some(
            (SCORE_LOSS + board.nb_moves as i32, 0, 0),
        ),
        GameStatus::Draw => return Some((0, 0, 0)),
        GameStatus::Ongoing => {},
    }
    if depth == 0 {
        return Some((evaluate(board), 0, 0));
    }
    let (nb_moves, moves) = board.generate_moves();
    if nb_moves == 0 {
        return Some((0, 0, 0));
    }
    if depth == i32::MIN {
        return None;
    }
    let ghost ms = b.listed_moves();
    proof {
        lemma_listed_moves(b);
    }
    let mut best_col = moves[0];
    let mut best_score = -INF;
    let mut sim: i32 = 0;
    let mut i: usize = 0;
    let mut ok = true;
    while i < nb_moves
        invariant_except_break
            0 <= i <= nb_moves,
            i == 0 ==> best_score == -INF,
            i > 0 ==> -score_bound() <= best_score <= score_bound(),
            sim >= 0,
            search_from(
                b,
                depth as int,
                alpha as int,
                beta as int,
                i as int,
                best_score as int,
                best_col,
                sim as int,
                true,
            ) == result,
            ok,
        invariant
            b == *board,
            b.status() == GameStatus::Ongoing,
            depth != 0,
            ms == b.listed_moves(),
            nb_moves == ms.len(),
            0 < nb_moves <= 7,
            forall|j: int| 0 <= j < nb_moves ==> moves@[j] == ms[j],
            forall|j: int| 0 <= j < nb_moves ==> 1 <= #[trigger] ms[j] <= 7,
            depth > i32::MIN,
        ensures
            ok ==> best_score == result.0 && best_col == result.1 && sim == result.2 && result.3,
            !ok ==> !result.3,
        decreases nb_moves - i,
    {
        let col = moves[i];
        let ghost child_b = b.after_move(col as int);
        let ghost child = search(child_b, depth - 1, -beta, -alpha);
        proof {
            lemma_search_bounds(child_b, depth - 1, -beta, -alpha);
        }
        let ghost score_s = -child.0;
        let ghost alpha2: int = if score_s > alpha {
            score_s
        } else {
            alpha as int
        };
        let ghost best2: int = if score_s > best_score {
            score_s
        } else {
            best_score as int
        };
        let ghost col2 = if score_s > best_score {
            col
        } else {
            best_col
        };
        let ghost sim2 = sim + child.2 + 1;
        if alpha == i32::MIN || beta == i32::MIN {
            proof {
                if alpha2 < beta {
                    lemma_search_from_fault(b, depth as int, alpha2, beta as int, i + 1, best2, col2, sim2);
                }
            }
            ok = false;
            break;
        }
        let mut new_board = board.clone();
        new_board.make_move(col);
        let sub = try_negamax(&new_board, depth - 1, -beta, -alpha);
        match sub {
            None => {
                proof {
                    if alpha2 < beta {
                        lemma_search_from_fault(b, depth as int, alpha2, beta as int, i + 1, best2, col2, sim2);
                    }
                }
                ok = false;
                break;
            },
            Some((child_score, _, nb_sim)) => {
                let score = -child_score;
                let total = match sim.checked_add(nb_sim) {
                    Some(t) => t.checked_add(1),
                    None => None,
                };
                match total {
                    None => {
                        proof {
                            if alpha2 < beta {
                                lemma_search_from_fault(b, depth as int, alpha2, beta as int, i + 1, best2, col2, sim2);
                            }
                        }
                        ok = false;
                        break;
                    },
                    Some(t) => {
                        sim = t;
                    },
                }
                if score > best_score {
                    best_score = score;
                    best_col = col;
                }
                if score > alpha {
                    alpha = score;
                }
                if alpha >= beta {
                    break;
                }
                i += 1;
            },
        }
    }
    if ok {
        Some((best_score, best_col, sim))
    } else {
        None
    }
}

} // verus!

verus! {

/// Negated value of the child that the `j`-th listed move leads to.
pub open spec fn child_score(b: Board, depth: int, j: int) -> int {
    -value(b.after_move(b.listed_moves()[j] as int), depth - 1)
}

proof fn lemma_best_child_value(b: Board, depth: int, i: int)
    requires
        b.nb_moves < 42,
        depth > i32::MIN,
        0 <= i < b.listed_moves().len(),
    ensures
        forall|j: int|
            i <= j < b.listed_moves().len() ==> best_child_value(b, depth, i) >= #[trigger] child_score(
                b,
                depth,
                j,
            ),
        exists|j: int|
            i <= j < b.listed_moves().len() && best_child_value(b, depth, i) == #[trigger] child_score(
                b,
                depth,
                j,
            ),
    decreases 7 - i,
{
    lemma_listed_moves(b);
    let ms = b.listed_moves();
    assert(child_score(b, depth, i) == -value(b.after_move(ms[i] as int), depth - 1));
    if i + 1 < ms.len() {
        lemma_best_child_value(b, depth, i + 1);
        let j = choose|j: int|
            i + 1 <= j < b.listed_moves().len() && best_child_value(b, depth, i + 1)
                == #[trigger] child_score(b, depth, j);
        if best_child_value(b, depth, i) != child_score(b, depth, i) {
            assert(best_child_value(b, depth, i) == child_score(b, depth, j));
        }
    }
}

/// The first listed move, `ms[j]`, whose child reaches `v`.
pub open spec fn first_reaching(b: Board, depth: int, j: int, v: int) -> bool {
    &&& 0 <= j < b.listed_moves().len()
    &&& child_score(b, depth, j) == v
    &&& forall|k: int| 0 <= k < j ==> #[trigger] child_score(b, depth, k) < v
}

/// The alpha-beta search agrees with the negamax value (see
/// `within_window`) whenever `alpha < beta`, and a result strictly inside
/// the window comes with the first listed column whose child reaches it.
pub proof fn lemma_search_window(b: Board, depth: int, alpha: int, beta: int)
    requires
        alpha < beta,
    ensures
        within_window(search(b, depth, alpha, beta).0, value(b, depth), alpha, beta),
        alpha < search(b, depth, alpha, beta).0 < beta && b.status() == GameStatus::Ongoing && depth
            != 0 && depth > i32::MIN && b.listed_moves().len() > 0 ==> exists|j: int|
            #[trigger] first_reaching(b, depth, j, search(b, depth, alpha, beta).0)
                && b.listed_moves()[j] == search(b, depth, alpha, beta).1,
    decreases 42 - b.nb_moves, depth - i32::MIN, 8int,
{
    if b.status() == GameStatus::Ongoing && depth != 0 && b.listed_moves().len() > 0 && depth
        > i32::MIN {
        lemma_search_from_window(
            b,
            depth,
            alpha,
            beta,
            alpha,
            0,
            -INF,
            b.listed_moves()[0],
            0,
            true,
            0,
        );
    }
}

proof fn lemma_search_from_window(
    b: Board,
    depth: int,
    alpha0: int,
    beta: int,
    alpha: int,
    i: int,
    best: int,
    col: u8,
    sim: int,
    ok: bool,
    jstar: int,
)
    requires
        b.status() == GameStatus::Ongoing,
        depth > i32::MIN,
        alpha0 < beta,
        alpha < beta,
        0 <= i < b.listed_moves().len(),
        i == 0 ==> alpha == alpha0 && best == -INF,
        i > 0 ==> alpha == (if alpha0 >= best {
            alpha0
        } else {
            best
        }),
        i > 0 ==> 0 <= jstar < i && b.listed_moves()[jstar] == col,
        i > 0 ==> -score_bound() <= best <= score_bound(),
        forall|j: int| 0 <= j < i ==> #[trigger] child_score(b, depth, j) <= best,
        i > 0 && alpha0 < best ==> child_score(b, depth, jstar) == best,
        i > 0 ==> forall|k: int| 0 <= k < jstar ==> #[trigger] child_score(b, depth, k) < best,
    ensures
        ({
            let r = search_from(b, depth, alpha, beta, i, best, col, sim, ok);
            &&& within_window(r.0, best_child_value(b, depth, 0), alpha0, beta)
            &&& alpha0 < r.0 < beta ==> exists|j: int|
                #[trigger] first_reaching(b, depth, j, r.0) && b.listed_moves()[j] == r.1
        }),
    decreases 42 - b.nb_moves, depth - i32::MIN, 7 - i,
{
    reveal_with_fuel(search_from, 2);
    lemma_listed_moves(b);
    let ms = b.listed_moves();
    let c = ms[i];
    let child_b = b.after_move(c as int);
    assert(child_b.nb_moves == b.nb_moves + 1 || child_b == b);
    lemma_search_window(child_b, depth - 1, -beta, -alpha);
    lemma_search_bounds(child_b, depth - 1, -beta, -alpha);
    let child = search(child_b, depth - 1, -beta, -alpha);
    let s = -child.0;
    assert(child_score(b, depth, i) == -value(child_b, depth - 1));
    let alpha2 = if s > alpha {
        s
    } else {
        alpha
    };
    let best2 = if s > best {
        s
    } else {
        best
    };
    let col2 = if s > best {
        c
    } else {
        col
    };
    let jstar2 = if s > best {
        i
    } else {
        jstar
    };
    let sim2 = sim + child.2 + 1;
    let ok2 = ok && alpha > i32::MIN && beta > i32::MIN && child.3 && sim2 <= i32::MAX;
    lemma_best_child_value(b, depth, 0);
    if alpha2 >= beta {
        assert(s >= beta);
        assert(best_child_value(b, depth, 0) >= child_score(b, depth, i));
    } else {
        assert forall|j: int| 0 <= j < i + 1 implies #[trigger] child_score(b, depth, j)
            <= best2 by {
            if j < i {
                assert(child_score(b, depth, j) <= best);
            }
        }
        assert forall|k: int| 0 <= k < jstar2 implies #[trigger] child_score(b, depth, k)
            < best2 by {
            if s > best {
                assert(child_score(b, depth, k) <= best);
            }
        }
        if i + 1 < ms.len() {
            lemma_search_from_window(
                b,
                depth,
                alpha0,
                beta,
                alpha2,
                i + 1,
                best2,
                col2,
                sim2,
                ok2,
                jstar2,
            );
        } else {
            let j = choose|j: int|
                0 <= j < b.listed_moves().len() && best_child_value(b, depth, 0)
                    == #[trigger] child_score(b, depth, j);
            assert(child_score(b, depth, j) <= best2);
            if alpha0 < best2 {
                assert(child_score(b, depth, jstar2) == best2);
                assert(best_child_value(b, depth, 0) >= child_score(b, depth, jstar2));
                assert(first_reaching(b, depth, jstar2, best2));
            }
        }
    }
}

} // verus!

verus! {

/// The search faults only on real arithmetic limits: from a depth of 0 or
/// more, with window bounds above `i32::MIN` (so that they can be negated),
/// a search whose node count fits an `i32` runs without fault.
pub proof fn lemma_search_faults_only_on_overflow(b: Board, depth: int, alpha: int, beta: int)
    requires
        0 <= depth,
        i32::MIN < alpha <= i32::MAX,
        i32::MIN < beta <= i32::MAX,
        search(b, depth, alpha, beta).2 <= i32::MAX,
    ensures
        search(b, depth, alpha, beta).3,
    decreases 42 - b.nb_moves, depth - i32::MIN, 8int,
{
    if b.status() == GameStatus::Ongoing && depth != 0 && b.listed_moves().len() != 0 {
        lemma_search_from_no_fault(b, depth, alpha, beta, 0, -INF, b.listed_moves()[0], 0);
    }
}

proof fn lemma_search_from_no_fault(
    b: Board,
    depth: int,
    alpha: int,
    beta: int,
    i: int,
    best: int,
    col: u8,
    sim: int,
)
    requires
        b.status() == GameStatus::Ongoing,
        1 <= depth,
        i32::MIN < alpha <= i32::MAX,
        i32::MIN < beta <= i32::MAX,
        0 <= i < b.listed_moves().len(),
        best == -INF || -score_bound() <= best <= score_bound(),
        sim >= 0,
        search_from(b, depth, alpha, beta, i, best, col, sim, true).2 <= i32::MAX,
    ensures
        search_from(b, depth, alpha, beta, i, best, col, sim, true).3,
    decreases 42 - b.nb_moves, depth - i32::MIN, 7 - i,
{
    reveal_with_fuel(search_from, 2);
    lemma_listed_moves(b);
    let ms = b.listed_moves();
    let c = ms[i];
    let child_b = b.after_move(c as int);
    assert(child_b.nb_moves == b.nb_moves + 1 || child_b == b);
    lemma_search_bounds(child_b, depth - 1, -beta, -alpha);
    let child = search(child_b, depth - 1, -beta, -alpha);
    let s = -child.0;
    let alpha2 = if s > alpha {
        s
    } else {
        alpha
    };
    let best2 = if s > best {
        s
    } else {
        best
    };
    let col2 = if s > best {
        c
    } else {
        col
    };
    let sim2 = sim + child.2 + 1;
    let ok2 = alpha > i32::MIN && beta > i32::MIN && child.3 && sim2 <= i32::MAX;
    if alpha2 < beta && i + 1 < ms.len() {
        lemma_search_from_bounds(b, depth, alpha2, beta, i + 1, best2, col2, sim2, ok2);
    }
    assert(sim2 <= i32::MAX);
    lemma_search_faults_only_on_overflow(child_b, depth - 1, -beta, -alpha);
    assert(ok2);
    if alpha2 < beta && i + 1 < ms.len() {
        lemma_search_from_no_fault(b, depth, alpha2, beta, i + 1, best2, col2, sim2);
    }
}

} // verus!
