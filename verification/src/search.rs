use vstd::prelude::*;
use crate::action::Action;
use crate::board::{
    abs, abs_val, applied, copy_board, get_score, grid, in_board, lemma_grid_shaped,
    is_piece_value, lemma_move_keeps_valid, lemma_score_bound, score, valid, Board, Grid,
};
use crate::history::{do_action, on_board, History, HISTORY_CAPACITY};
use crate::moves::{all_fair, as_pairs, fair_target, gen_targets, lemma_targets_fair, piece_targets};
use crate::random::{get_rand, random_bool};
use crate::rules::{follows_rule, lemma_piece_rule};
use crate::moves::own;

verus! {

/// A move as integers: source column and row, target column and row.
pub type Move = (int, int, int, int);

/// The value of a position in which the side to move has no move at all;
/// below every value an `i16` window can hold.
pub open spec fn no_move_value() -> int {
    -100000
}

pub open spec fn clamp(v: int, lo: int, hi: int) -> int {
    if v < lo {
        lo
    } else if v > hi {
        hi
    } else {
        v
    }
}

/// The factor `(depth + 1) % 2 * 2 - 1` computed in wrapping `u8`
/// arithmetic and read as an `i16`: 1 at even depth, 255 at odd depth.
pub open spec fn capture_factor(d: nat) -> i16 {
    if d % 2 == 0 {
        1
    } else {
        255
    }
}

/// The value given to a move that captures a general with `d` plies left:
/// the factor times the score `s` of the position after the move, wrapped to `i16`.
pub open spec fn capture_value(d: nat, s: int) -> int {
    vstd::wrapping::i16_specs::wrapping_mul(capture_factor(d), s as i16) as int
}

/// The moves from `(x, y)`, in the order they are tried.
pub open spec fn square_moves(g: Grid, is_ai: bool, x: int, y: int) -> Seq<Move> {
    let t = piece_targets(g, is_ai, x, y);
    Seq::new(t.len(), |k: int| (x, y, t[k].0, t[k].1))
}

/// The moves from the squares of column `x` from row `y` down.
pub open spec fn moves_rows(g: Grid, is_ai: bool, x: int, y: int) -> Seq<Move>
    decreases 10 - y,
{
    if y < 0 || y >= 10 {
        seq![]
    } else {
        square_moves(g, is_ai, x, y) + moves_rows(g, is_ai, x, y + 1)
    }
}

/// The moves from the columns `x` onward.
pub open spec fn moves_cols(g: Grid, is_ai: bool, x: int) -> Seq<Move>
    decreases 9 - x,
{
    if x < 0 || x >= 9 {
        seq![]
    } else {
        moves_rows(g, is_ai, x, 0) + moves_cols(g, is_ai, x + 1)
    }
}

/// Every move of the side `is_ai`.
pub open spec fn all_moves(g: Grid, is_ai: bool) -> Seq<Move> {
    moves_cols(g, is_ai, 0)
}

pub open spec fn captures_general(g: Grid, m: Move) -> bool {
    abs_val(g[m.3][m.2] as int) == 127
}

/// Negamax value of `g` for the side `is_ai` with `d` plies to go: the
/// score at depth 0; otherwise the best move value, where a capture of a
/// general ends the line with its capture value and any other move is worth
/// minus the value of the reply position.
pub open spec fn negamax(g: Grid, is_ai: bool, d: nat) -> int
    decreases d, 1nat, 0nat,
{
    if d == 0 {
        score(g)
    } else {
        best(g, is_ai, d, all_moves(g, is_ai))
    }
}

/// The largest move value among `ms`; `no_move_value()` for none.
pub open spec fn best(g: Grid, is_ai: bool, d: nat, ms: Seq<Move>) -> int
    decreases d, 0nat, ms.len(),
{
    if d == 0 || ms.len() == 0 {
        no_move_value()
    } else {
        let m = ms.last();
        let after = applied(g, m.0, m.1, m.2, m.3);
        let v = if captures_general(g, m) {
            capture_value(d, score(after))
        } else {
            -negamax(after, !is_ai, (d - 1) as nat)
        };
        let rest = best(g, is_ai, d, ms.drop_last());
        if v > rest {
            v
        } else {
            rest
        }
    }
}

/// The negamax value of one move with `d` plies to go.
#[verifier::opaque]
pub open spec fn move_value(g: Grid, is_ai: bool, d: nat, m: Move) -> int {
    let after = applied(g, m.0, m.1, m.2, m.3);
    if captures_general(g, m) {
        capture_value(d, score(after))
    } else {
        -negamax(after, !is_ai, (d - 1) as nat)
    }
}

/// What an alpha-beta search that fails hard returns: the score at depth 0;
/// with an open window the negamax value clamped into it; with an empty
/// window `beta` if some move reaches `beta`, else `alpha`.
pub open spec fn alpha_beta(g: Grid, is_ai: bool, d: nat, alpha: int, beta: int) -> int
    decreases d, 1nat, 0nat,
{
    if d == 0 {
        score(g)
    } else if alpha < beta {
        clamp(negamax(g, is_ai, d), alpha, beta)
    } else if cuts(g, is_ai, d, alpha, beta, all_moves(g, is_ai)) {
        beta
    } else {
        alpha
    }
}

/// Some move among `ms` reaches `beta` when searched with the window `(alpha, beta)`.
pub open spec fn cuts(g: Grid, is_ai: bool, d: nat, alpha: int, beta: int, ms: Seq<Move>) -> bool
    decreases d, 0nat, ms.len(),
{
    if d == 0 || ms.len() == 0 {
        false
    } else {
        let m = ms.last();
        let after = applied(g, m.0, m.1, m.2, m.3);
        let v = if captures_general(g, m) {
            capture_value(d, score(after))
        } else {
            -alpha_beta(after, !is_ai, (d - 1) as nat, -beta, -alpha)
        };
        v >= beta || cuts(g, is_ai, d, alpha, beta, ms.drop_last())
    }
}

/// What searching one move with the window `(alpha, beta)` returns.
#[verifier::opaque]
pub open spec fn move_alpha_beta(g: Grid, is_ai: bool, d: nat, m: Move, alpha: int, beta: int) -> int {
    let after = applied(g, m.0, m.1, m.2, m.3);
    if captures_general(g, m) {
        capture_value(d, score(after))
    } else {
        -alpha_beta(after, !is_ai, (d - 1) as nat, -beta, -alpha)
    }
}

/// The integer view of an action's squares.
pub open spec fn move_of(a: Action) -> Move {
    (a.src.x as int, a.src.y as int, a.tar.x as int, a.tar.y as int)
}

/// `a` is the move `m` made on `g`: it remembers what stood on the target.
pub open spec fn records(g: Grid, a: Action, m: Move) -> bool {
    move_of(a) == m && a.removed == g[m.3][m.2]
}

proof fn lemma_best(g: Grid, is_ai: bool, d: nat, ms: Seq<Move>)
    requires
        d > 0,
    ensures
        forall|i: int| 0 <= i < ms.len() ==> move_value(g, is_ai, d, #[trigger] ms[i]) <= best(g, is_ai, d, ms),
        best(g, is_ai, d, ms) == no_move_value() || exists|i: int|
            0 <= i < ms.len() && move_value(g, is_ai, d, #[trigger] ms[i]) == best(g, is_ai, d, ms),
        best(g, is_ai, d, ms) >= no_move_value(),
    decreases ms.len(),
{
    reveal(move_value);
    reveal(move_alpha_beta);
    if ms.len() > 0 {
        let rest = ms.drop_last();
        lemma_best(g, is_ai, d, rest);
        assert forall|i: int| 0 <= i < ms.len() implies move_value(g, is_ai, d, #[trigger] ms[i])
            <= best(g, is_ai, d, ms) by {
            if i < ms.len() - 1 {
                assert(ms[i] == rest[i]);
            }
        }
        if best(g, is_ai, d, ms) != no_move_value() {
            if best(g, is_ai, d, ms) == move_value(g, is_ai, d, ms.last()) {
                assert(ms[ms.len() - 1] == ms.last());
            } else {
                let i = choose|i: int|
                    0 <= i < rest.len() && move_value(g, is_ai, d, #[trigger] rest[i]) == best(
                        g,
                        is_ai,
                        d,
                        rest,
                    );
                assert(ms[i] == rest[i]);
            }
        }
    }
}

proof fn lemma_cuts(g: Grid, is_ai: bool, d: nat, alpha: int, beta: int, ms: Seq<Move>)
    requires
        d > 0,
    ensures
        cuts(g, is_ai, d, alpha, beta, ms) <==> exists|i: int|
            0 <= i < ms.len() && move_alpha_beta(g, is_ai, d, #[trigger] ms[i], alpha, beta) >= beta,
    decreases ms.len(),
{
    reveal(move_value);
    reveal(move_alpha_beta);
    if ms.len() > 0 {
        let rest = ms.drop_last();
        lemma_cuts(g, is_ai, d, alpha, beta, rest);
        if cuts(g, is_ai, d, alpha, beta, ms) {
            if move_alpha_beta(g, is_ai, d, ms.last(), alpha, beta) >= beta {
                assert(ms[ms.len() - 1] == ms.last());
            } else {
                let i = choose|i: int|
                    0 <= i < rest.len() && move_alpha_beta(g, is_ai, d, #[trigger] rest[i], alpha, beta)
                        >= beta;
                assert(ms[i] == rest[i]);
            }
        } else {
            assert forall|i: int| 0 <= i < ms.len() implies move_alpha_beta(
                g,
                is_ai,
                d,
                #[trigger] ms[i],
                alpha,
                beta,
            ) < beta by {
                if i < ms.len() - 1 {
                    assert(ms[i] == rest[i]);
                }
            }
        }
    }
}

proof fn lemma_rows_sound(g: Grid, is_ai: bool, x: int, y: int, i: int)
    requires
        0 <= x < 9,
        0 <= y <= 10,
        0 <= i < moves_rows(g, is_ai, x, y).len(),
    ensures
        exists|yy: int, k: int|
            #![trigger square_moves(g, is_ai, x, yy)[k]]
            y <= yy < 10 && 0 <= k < square_moves(g, is_ai, x, yy).len() && moves_rows(
                g,
                is_ai,
                x,
                y,
            )[i] == square_moves(g, is_ai, x, yy)[k],
    decreases 10 - y,
{
    let s = square_moves(g, is_ai, x, y);
    let rest = moves_rows(g, is_ai, x, y + 1);
    if i < s.len() {
        assert(moves_rows(g, is_ai, x, y)[i] == s[i]);
    } else {
        lemma_rows_sound(g, is_ai, x, y + 1, i - s.len());
        assert(moves_rows(g, is_ai, x, y)[i] == rest[i - s.len()]);
    }
}

proof fn lemma_cols_sound(g: Grid, is_ai: bool, x: int, i: int)
    requires
        0 <= x <= 9,
        0 <= i < moves_cols(g, is_ai, x).len(),
    ensures
        exists|xx: int, yy: int, k: int|
            #![trigger square_moves(g, is_ai, xx, yy)[k]]
            x <= xx < 9 && 0 <= yy < 10 && 0 <= k < square_moves(g, is_ai, xx, yy).len()
                && moves_cols(g, is_ai, x)[i] == square_moves(g, is_ai, xx, yy)[k],
    decreases 9 - x,
{
    let s = moves_rows(g, is_ai, x, 0);
    let rest = moves_cols(g, is_ai, x + 1);
    if i < s.len() {
        lemma_rows_sound(g, is_ai, x, 0, i);
        assert(moves_cols(g, is_ai, x)[i] == s[i]);
    } else {
        lemma_cols_sound(g, is_ai, x + 1, i - s.len());
        assert(moves_cols(g, is_ai, x)[i] == rest[i - s.len()]);
    }
}

/// Every move in `all_moves` is a move of some square.
pub proof fn lemma_all_moves_sound(g: Grid, is_ai: bool, i: int)
    requires
        0 <= i < all_moves(g, is_ai).len(),
    ensures
        exists|xx: int, yy: int, k: int|
            #![trigger square_moves(g, is_ai, xx, yy)[k]]
            in_board(xx, yy) && 0 <= k < square_moves(g, is_ai, xx, yy).len() && all_moves(
                g,
                is_ai,
            )[i] == square_moves(g, is_ai, xx, yy)[k],
{
    lemma_cols_sound(g, is_ai, 0, i);
}

proof fn lemma_rows_complete(g: Grid, is_ai: bool, x: int, y: int, yy: int, k: int)
    requires
        0 <= x < 9,
        0 <= y <= yy < 10,
        0 <= k < square_moves(g, is_ai, x, yy).len(),
    ensures
        moves_rows(g, is_ai, x, y).contains(square_moves(g, is_ai, x, yy)[k]),
    decreases 10 - y,
{
    let s = square_moves(g, is_ai, x, y);
    let all = moves_rows(g, is_ai, x, y);
    if y == yy {
        assert(all[k] == s[k]);
    } else {
        lemma_rows_complete(g, is_ai, x, y + 1, yy, k);
        let rest = moves_rows(g, is_ai, x, y + 1);
        let i = choose|i: int| 0 <= i < rest.len() && rest[i] == square_moves(g, is_ai, x, yy)[k];
        assert(all[i + s.len()] == rest[i]);
    }
}

proof fn lemma_cols_complete(g: Grid, is_ai: bool, x: int, xx: int, yy: int, k: int)
    requires
        0 <= x <= xx < 9,
        0 <= yy < 10,
        0 <= k < square_moves(g, is_ai, xx, yy).len(),
    ensures
        moves_cols(g, is_ai, x).contains(square_moves(g, is_ai, xx, yy)[k]),
    decreases 9 - x,
{
    let s = moves_rows(g, is_ai, x, 0);
    let all = moves_cols(g, is_ai, x);
    if x == xx {
        lemma_rows_complete(g, is_ai, x, 0, yy, k);
        let i = choose|i: int| 0 <= i < s.len() && s[i] == square_moves(g, is_ai, xx, yy)[k];
        assert(all[i] == s[i]);
    } else {
        lemma_cols_complete(g, is_ai, x + 1, xx, yy, k);
        let rest = moves_cols(g, is_ai, x + 1);
        let i = choose|i: int| 0 <= i < rest.len() && rest[i] == square_moves(g, is_ai, xx, yy)[k];
        assert(all[i + s.len()] == rest[i]);
    }
}

/// Every move of every square is in `all_moves`.
pub proof fn lemma_all_moves_complete(g: Grid, is_ai: bool, xx: int, yy: int, k: int)
    requires
        in_board(xx, yy),
        0 <= k < square_moves(g, is_ai, xx, yy).len(),
    ensures
        all_moves(g, is_ai).contains(square_moves(g, is_ai, xx, yy)[k]),
{
    lemma_cols_complete(g, is_ai, 0, xx, yy, k);
}

/// With an open window, searching a move tells on which side of the window
/// its value lies, and gives the value itself when it falls inside.
proof fn lemma_move_window(g: Grid, is_ai: bool, d: nat, m: Move, a: int, b: int)
    requires
        d > 0,
        a < b,
    ensures
        move_alpha_beta(g, is_ai, d, m, a, b) >= b <==> move_value(g, is_ai, d, m) >= b,
        move_alpha_beta(g, is_ai, d, m, a, b) > a <==> move_value(g, is_ai, d, m) > a,
        a < move_alpha_beta(g, is_ai, d, m, a, b) < b ==> move_alpha_beta(g, is_ai, d, m, a, b)
            == move_value(g, is_ai, d, m),
{
    reveal(move_value);
    reveal(move_alpha_beta);
}

/// An open window that no move reached: the search ends on the best value seen.
proof fn lemma_open_window_result(g: Grid, is_ai: bool, d: nat, a0: int, b: int, a: int, m: Move)
    requires
        d > 0,
        -32767 <= a0 <= a < b,
        forall|x: int, y: int, k: int|
            in_board(x, y) && 0 <= k < square_moves(g, is_ai, x, y).len() ==> move_value(
                g,
                is_ai,
                d,
                #[trigger] square_moves(g, is_ai, x, y)[k],
            ) <= a,
        a != a0 ==> all_moves(g, is_ai).contains(m) && move_value(g, is_ai, d, m) == a,
    ensures
        alpha_beta(g, is_ai, d, a0, b) == a,
{
    let ms = all_moves(g, is_ai);
    lemma_best(g, is_ai, d, ms);
    assert forall|i: int| 0 <= i < ms.len() implies move_value(g, is_ai, d, #[trigger] ms[i]) <= a by {
        lemma_all_moves_sound(g, is_ai, i);
    }
    if a != a0 {
        let i = choose|i: int| 0 <= i < ms.len() && ms[i] == m;
        assert(move_value(g, is_ai, d, ms[i]) <= best(g, is_ai, d, ms));
    }
}

/// An open window that some move reached: the search ends on `beta`.
proof fn lemma_open_window_cut(g: Grid, is_ai: bool, d: nat, a0: int, b: int, m: Move)
    requires
        d > 0,
        a0 < b,
        all_moves(g, is_ai).contains(m),
        move_value(g, is_ai, d, m) >= b,
    ensures
        alpha_beta(g, is_ai, d, a0, b) == b,
{
    let ms = all_moves(g, is_ai);
    lemma_best(g, is_ai, d, ms);
    let i = choose|i: int| 0 <= i < ms.len() && ms[i] == m;
    assert(move_value(g, is_ai, d, ms[i]) <= best(g, is_ai, d, ms));
}

/// An empty window that no move reached: the search ends on `alpha`.
proof fn lemma_empty_window_result(g: Grid, is_ai: bool, d: nat, a0: int, b: int)
    requires
        d > 0,
        a0 >= b,
        forall|x: int, y: int, k: int|
            in_board(x, y) && 0 <= k < square_moves(g, is_ai, x, y).len() ==> move_alpha_beta(
                g,
                is_ai,
                d,
                #[trigger] square_moves(g, is_ai, x, y)[k],
                a0,
                b,
            ) < b,
    ensures
        !cuts(g, is_ai, d, a0, b, all_moves(g, is_ai)),
        alpha_beta(g, is_ai, d, a0, b) == a0,
{
    let ms = all_moves(g, is_ai);
    lemma_cuts(g, is_ai, d, a0, b, ms);
    assert forall|i: int| 0 <= i < ms.len() implies move_alpha_beta(g, is_ai, d, #[trigger] ms[i], a0, b)
        < b by {
        lemma_all_moves_sound(g, is_ai, i);
    }
}

/// An empty window that some move reached: the search ends on `beta`.
proof fn lemma_empty_window_cut(g: Grid, is_ai: bool, d: nat, a0: int, b: int, m: Move)
    requires
        d > 0,
        a0 >= b,
        all_moves(g, is_ai).contains(m),
        move_alpha_beta(g, is_ai, d, m, a0, b) >= b,
    ensures
        cuts(g, is_ai, d, a0, b, all_moves(g, is_ai)),
        alpha_beta(g, is_ai, d, a0, b) == b,
{
    let ms = all_moves(g, is_ai);
    lemma_cuts(g, is_ai, d, a0, b, ms);
    let i = choose|i: int| 0 <= i < ms.len() && ms[i] == m;
    assert(move_alpha_beta(g, is_ai, d, ms[i], a0, b) >= b);
}

/// Law: every move of `all_moves` starts on the board from a piece of the
/// side to move and goes to a fair target.
pub proof fn lemma_all_moves_fair(g: Grid, is_ai: bool, m: Move)
    requires
        all_moves(g, is_ai).contains(m),
    ensures
        in_board(m.0, m.1),
        fair_target(g, is_ai, m.0, m.1, (m.2, m.3)),
{
    let i = choose|i: int| 0 <= i < all_moves(g, is_ai).len() && all_moves(g, is_ai)[i] == m;
    lemma_all_moves_sound(g, is_ai, i);
    let (xx, yy, k) = choose|xx: int, yy: int, k: int|
        #![trigger square_moves(g, is_ai, xx, yy)[k]]
        in_board(xx, yy) && 0 <= k < square_moves(g, is_ai, xx, yy).len() && all_moves(g, is_ai)[i]
            == square_moves(g, is_ai, xx, yy)[k];
    lemma_targets_fair(g, is_ai, xx, yy);
    assert(fair_target(g, is_ai, xx, yy, piece_targets(g, is_ai, xx, yy)[k]));
}

/// Law: with plies to go, a fail-hard search never leaves its window: the
/// result lies between `alpha` and `beta`.
pub proof fn lemma_alpha_beta_in_window(g: Grid, is_ai: bool, d: nat, alpha: int, beta: int)
    requires
        d > 0,
    ensures
        alpha <= beta ==> alpha <= alpha_beta(g, is_ai, d, alpha, beta) <= beta,
        beta < alpha ==> beta <= alpha_beta(g, is_ai, d, alpha, beta) <= alpha,
{
}

/// Law: a move that takes a general is worth its capture value, with no
/// further search; any other move is worth minus the search of the reply
/// position with the window turned round.
pub proof fn lemma_move_alpha_beta_cases(g: Grid, is_ai: bool, d: nat, m: Move, alpha: int, beta: int)
    ensures
        captures_general(g, m) ==> move_alpha_beta(g, is_ai, d, m, alpha, beta) == capture_value(
            d,
            score(applied(g, m.0, m.1, m.2, m.3)),
        ),
        !captures_general(g, m) ==> move_alpha_beta(g, is_ai, d, m, alpha, beta) == -alpha_beta(
            applied(g, m.0, m.1, m.2, m.3),
            !is_ai,
            (d - 1) as nat,
            -beta,
            -alpha,
        ),
{
    reveal(move_alpha_beta);
}

/// Law: the moves searched from a square are the generator's targets for
/// that square, in the same order, each paired with the square.
pub proof fn lemma_square_moves_rule(g: Grid, is_ai: bool, x: int, y: int)
    ensures
        square_moves(g, is_ai, x, y).len() == piece_targets(g, is_ai, x, y).len(),
        forall|k: int|
            0 <= k < square_moves(g, is_ai, x, y).len() ==> #[trigger] square_moves(g, is_ai, x, y)[k]
                == (x, y, piece_targets(g, is_ai, x, y)[k].0, piece_targets(g, is_ai, x, y)[k].1),
{
}

/// Law: the moves the search considers are exactly the moves of the pieces
/// of the side to move that follow the rule of their kind; no piece is left out.
pub proof fn lemma_all_moves_rule(g: Grid, is_ai: bool, m: Move)
    ensures
        all_moves(g, is_ai).contains(m) <==> in_board(m.0, m.1) && own(g, is_ai, m.0, m.1) && follows_rule(
            g,
            is_ai,
            m.0,
            m.1,
            (m.2, m.3),
        ),
{
    lemma_piece_rule(g, is_ai, m.0, m.1, (m.2, m.3));
    if all_moves(g, is_ai).contains(m) {
        let i = choose|i: int| 0 <= i < all_moves(g, is_ai).len() && all_moves(g, is_ai)[i] == m;
        lemma_all_moves_sound(g, is_ai, i);
        let (xx, yy, k) = choose|xx: int, yy: int, k: int|
            #![trigger square_moves(g, is_ai, xx, yy)[k]]
            in_board(xx, yy) && 0 <= k < square_moves(g, is_ai, xx, yy).len() && all_moves(g, is_ai)[i]
                == square_moves(g, is_ai, xx, yy)[k];
        assert(piece_targets(g, is_ai, xx, yy)[k] == (m.2, m.3));
        assert(piece_targets(g, is_ai, m.0, m.1).contains((m.2, m.3)));
    }
    if in_board(m.0, m.1) && piece_targets(g, is_ai, m.0, m.1).contains((m.2, m.3)) {
        let t = piece_targets(g, is_ai, m.0, m.1);
        let k = choose|k: int| 0 <= k < t.len() && t[k] == (m.2, m.3);
        lemma_all_moves_complete(g, is_ai, m.0, m.1, k);
        assert(square_moves(g, is_ai, m.0, m.1)[k] == m);
    }
}

/// Law: with plies to go, the negamax value is the best move value: no move
/// is worth more, and it is the value of some move unless it is the value
/// of having no move at all.
pub proof fn lemma_negamax_best(g: Grid, is_ai: bool, d: nat)
    requires
        d > 0,
    ensures
        forall|m: Move| #[trigger] all_moves(g, is_ai).contains(m) ==> move_value(g, is_ai, d, m) <= negamax(g, is_ai, d),
        negamax(g, is_ai, d) >= no_move_value(),
        negamax(g, is_ai, d) == no_move_value() || exists|m: Move|
            #[trigger] all_moves(g, is_ai).contains(m) && move_value(g, is_ai, d, m) == negamax(g, is_ai, d),
{
    let ms = all_moves(g, is_ai);
    lemma_best(g, is_ai, d, ms);
    assert forall|m: Move| #[trigger] ms.contains(m) implies move_value(g, is_ai, d, m) <= negamax(g, is_ai, d) by {
        let i = choose|i: int| 0 <= i < ms.len() && ms[i] == m;
        assert(move_value(g, is_ai, d, ms[i]) <= best(g, is_ai, d, ms));
    }
    if negamax(g, is_ai, d) != no_move_value() {
        let i = choose|i: int| 0 <= i < ms.len() && move_value(g, is_ai, d, #[trigger] ms[i]) == best(g, is_ai, d, ms);
        assert(ms.contains(ms[i]));
    }
}

/// Law: a move that takes a general is worth its capture value; any other
/// move is worth minus the negamax value of the reply position.
pub proof fn lemma_move_value_cases(g: Grid, is_ai: bool, d: nat, m: Move)
    ensures
        captures_general(g, m) ==> move_value(g, is_ai, d, m) == capture_value(
            d,
            score(applied(g, m.0, m.1, m.2, m.3)),
        ),
        !captures_general(g, m) ==> move_value(g, is_ai, d, m) == -negamax(
            applied(g, m.0, m.1, m.2, m.3),
            !is_ai,
            (d - 1) as nat,
        ),
{
    reveal(move_value);
}

/// Law: what the fail-hard search returns: the score with no plies to go;
/// with an open window the negamax value clamped into it; with an empty
/// window `beta` exactly when some move reaches `beta`, else `alpha`.
pub proof fn lemma_alpha_beta_rule(g: Grid, is_ai: bool, d: nat, alpha: int, beta: int)
    ensures
        d == 0 ==> alpha_beta(g, is_ai, d, alpha, beta) == score(g),
        d > 0 && alpha < beta ==> alpha_beta(g, is_ai, d, alpha, beta) == clamp(negamax(g, is_ai, d), alpha, beta),
        d > 0 && alpha >= beta ==> alpha_beta(g, is_ai, d, alpha, beta) == if exists|m: Move|
            #[trigger] all_moves(g, is_ai).contains(m) && move_alpha_beta(g, is_ai, d, m, alpha, beta) >= beta {
            beta
        } else {
            alpha
        },
{
    if d > 0 && alpha >= beta {
        let ms = all_moves(g, is_ai);
        lemma_cuts(g, is_ai, d, alpha, beta, ms);
        if cuts(g, is_ai, d, alpha, beta, ms) {
            let i = choose|i: int| 0 <= i < ms.len() && move_alpha_beta(g, is_ai, d, #[trigger] ms[i], alpha, beta) >= beta;
            assert(ms.contains(ms[i]));
        } else {
            assert forall|m: Move| #[trigger] ms.contains(m) implies move_alpha_beta(g, is_ai, d, m, alpha, beta) < beta by {
                let i = choose|i: int| 0 <= i < ms.len() && ms[i] == m;
                assert(move_alpha_beta(g, is_ai, d, ms[i], alpha, beta) < beta);
            }
        }
    }
}

/// Stores a copy of `act` in the slot, if there is one.
fn store(actptr: &mut Option<Action>, act: &Action)
    ensures
        (*old(actptr)) is None ==> (*final(actptr)) is None,
        (*old(actptr)) is Some ==> *final(actptr) == Some(*act),
{
    match actptr {
        Some(p) => p.from(act),
        None => {},
    }
}

/// Makes `act` on a copy of `board` and searches the reply position.
///
/// A move that captures a general ends the line: its value is the score
/// after the move times `(depth + 1) % 2 * 2 - 1`, all in wrapping
/// arithmetic (see `capture_value`). Any other move is worth minus the value
/// of the reply search with the window `(-beta, -alpha)`.
fn search_next(board: Board, is_ai: bool, act: &mut Action, depth: u8, alpha: i16, beta: i16) -> (r: i16)
    requires
        valid(grid(board)),
        on_board(*old(act)),
        depth >= 1 || captures_general(grid(board), move_of(*old(act))),
        !captures_general(grid(board), move_of(*old(act))) ==> -32767 <= alpha <= 32767,
        !captures_general(grid(board), move_of(*old(act))) ==> -32767 <= beta <= 32767,
    ensures
        records(grid(board), *final(act), move_of(*old(act))),
        r == move_alpha_beta(grid(board), is_ai, depth as nat, move_of(*old(act)), alpha as int, beta as int),
        captures_general(grid(board), move_of(*old(act))) ==> r == capture_value(
            depth as nat,
            score(
                applied(
                    grid(board),
                    old(act).src.x as int,
                    old(act).src.y as int,
                    old(act).tar.x as int,
                    old(act).tar.y as int,
                ),
            ),
        ),
        !captures_general(grid(board), move_of(*old(act))) ==> r == -alpha_beta(
            applied(
                grid(board),
                old(act).src.x as int,
                old(act).src.y as int,
                old(act).tar.x as int,
                old(act).tar.y as int,
            ),
            !is_ai,
            (depth - 1) as nat,
            -beta,
            -alpha,
        ),
    decreases depth, 0nat,
{
    proof {
        reveal(move_alpha_beta);
    }
    let ghost g = grid(board);
    let ghost m = move_of(*act);
    proof {
        lemma_grid_shaped(board);
        lemma_move_keeps_valid(g, m.0, m.1, m.2, m.3);
        assert(is_piece_value(g[m.3][m.2]));
    }
    let mut temp_board: Board = [[0; 9]; 10];
    copy_board(&mut temp_board, board);
    let mut scratch = History::new();
    do_action(&mut temp_board, act, false, &mut scratch);
    let ghost after = grid(temp_board);
    assert(after == applied(g, m.0, m.1, m.2, m.3));
    if abs(act.removed) == 127 {
        let s = get_score(temp_board);
        let factor = (depth.wrapping_add(1) % 2 * 2).wrapping_sub(1) as i16;
        assert(factor == capture_factor(depth as nat));
        return factor.wrapping_mul(s);
    }
    let mut none: Option<Action> = None;
    let v = search(&mut none, temp_board, !is_ai, depth - 1, -beta, -alpha);
    proof {
        lemma_grid_shaped(temp_board);
        lemma_score_bound(after, 9);
    }
    -v
}

/// Searches every move of the piece on `(x, y)` in turn, raising `alpha`
/// and remembering the move that raised it; stops with `(true, beta)` at the
/// first move that reaches `beta`, else returns `(false, alpha)`.
fn search_piece(
    actptr: &mut Option<Action>,
    board: Board,
    is_ai: bool,
    depth: u8,
    x: u8,
    y: u8,
    alpha: i16,
    beta: i16,
) -> (res: (bool, i16))
    requires
        valid(grid(board)),
        in_board(x as int, y as int),
        depth >= 1,
        -32767 <= alpha <= 32767,
        -32767 <= beta <= 32767,
    ensures
        (*old(actptr)) is None ==> (*final(actptr)) is None,
        res.0 ==> res.1 == beta,
        alpha < beta && !res.0 ==> {
            &&& alpha <= res.1 < beta
            &&& forall|k: int|
                0 <= k < square_moves(grid(board), is_ai, x as int, y as int).len() ==> move_value(
                    grid(board),
                    is_ai,
                    depth as nat,
                    #[trigger] square_moves(grid(board), is_ai, x as int, y as int)[k],
                ) <= res.1
            &&& res.1 == alpha ==> *final(actptr) == *old(actptr)
        },
        alpha < beta && res.1 != alpha ==> exists|m: Move|
            all_moves(grid(board), is_ai).contains(m) && if res.0 {
                move_value(grid(board), is_ai, depth as nat, m) >= beta
            } else {
                move_value(grid(board), is_ai, depth as nat, m) == res.1
            },
        alpha < beta && res.1 != alpha && (*old(actptr)) is Some ==> ((*final(actptr)) matches Some(p) && {
            &&& all_moves(grid(board), is_ai).contains(move_of(p))
            &&& records(grid(board), p, move_of(p))
            &&& if res.0 {
                move_value(grid(board), is_ai, depth as nat, move_of(p)) >= beta
            } else {
                move_value(grid(board), is_ai, depth as nat, move_of(p)) == res.1
            }
        }),
        alpha >= beta && !res.0 ==> {
            &&& res.1 == alpha
            &&& forall|k: int|
                0 <= k < square_moves(grid(board), is_ai, x as int, y as int).len() ==> move_alpha_beta(
                    grid(board),
                    is_ai,
                    depth as nat,
                    #[trigger] square_moves(grid(board), is_ai, x as int, y as int)[k],
                    alpha as int,
                    beta as int,
                ) < beta
            &&& *final(actptr) == *old(actptr)
        },
        alpha >= beta && res.0 ==> exists|m: Move|
            all_moves(grid(board), is_ai).contains(m) && move_alpha_beta(
                grid(board),
                is_ai,
                depth as nat,
                m,
                alpha as int,
                beta as int,
            ) >= beta,
        alpha >= beta && res.0 && (*old(actptr)) is Some ==> ((*final(actptr)) matches Some(p) && {
            &&& all_moves(grid(board), is_ai).contains(move_of(p))
            &&& records(grid(board), p, move_of(p))
            &&& move_alpha_beta(grid(board), is_ai, depth as nat, move_of(p), alpha as int, beta as int)
                >= beta
        }),
    decreases depth, 1nat,
{
    let ghost g = grid(board);
    let ghost d = depth as nat;
    let ghost sm = square_moves(g, is_ai, x as int, y as int);
    let ghost old_ptr = *actptr;
    let ts = gen_targets(&board, is_ai, x, y);
    proof {
        lemma_targets_fair(g, is_ai, x as int, y as int);
    }
    let mut a: i16 = alpha;
    let mut k: usize = 0;
    while k < ts.len()
        invariant
            g == grid(board),
            d == depth as nat,
            valid(g),
            in_board(x as int, y as int),
            depth >= 1,
            -32767 <= alpha <= 32767,
            -32767 <= beta <= 32767,
            as_pairs(ts@) == piece_targets(g, is_ai, x as int, y as int),
            all_fair(g, is_ai, x as int, y as int, piece_targets(g, is_ai, x as int, y as int)),
            sm == square_moves(g, is_ai, x as int, y as int),
            0 <= k <= ts.len(),
            old_ptr == *old(actptr),
            old_ptr is None ==> (*actptr) is None,
            alpha < beta ==> {
                &&& alpha <= a < beta
                &&& forall|j: int| 0 <= j < k ==> move_value(g, is_ai, d, #[trigger] sm[j]) <= a
                &&& a == alpha ==> *actptr == old_ptr
                &&& a != alpha ==> exists|m: Move|
                    all_moves(g, is_ai).contains(m) && move_value(g, is_ai, d, m) == a
                &&& a != alpha && old_ptr is Some ==> ((*actptr) matches Some(p) && {
                    &&& all_moves(g, is_ai).contains(move_of(p))
                    &&& records(g, p, move_of(p))
                    &&& move_value(g, is_ai, d, move_of(p)) == a
                })
            },
            alpha >= beta ==> {
                &&& a == alpha
                &&& forall|j: int|
                    0 <= j < k ==> move_alpha_beta(g, is_ai, d, #[trigger] sm[j], alpha as int, beta as int)
                        < beta
                &&& *actptr == old_ptr
            },
        decreases ts.len() - k,
    {
        let t = ts[k];
        let ghost mk = sm[k as int];
        assert(as_pairs(ts@)[k as int] == (t.x as int, t.y as int));
        assert(fair_target(g, is_ai, x as int, y as int, piece_targets(g, is_ai, x as int, y as int)[k as int]));
        let mut act = Action::new(x, y, t.x, t.y);
        assert(move_of(act) == mk);
        let val = search_next(board, is_ai, &mut act, depth, a, beta);
        proof {
            if alpha < beta {
                lemma_move_window(g, is_ai, d, mk, a as int, beta as int);
            }
            lemma_all_moves_complete(g, is_ai, x as int, y as int, k as int);
        }
        if val >= beta {
            store(actptr, &act);
            return (true, beta);
        }
        if val > a {
            store(actptr, &act);
            a = val;
        }
        k += 1;
    }
    (false, a)
}

/// Fail-hard alpha-beta search of `board` for the side `is_ai` with `depth`
/// plies to go. Columns, and within each column the rows, are visited in a
/// direction drawn at random; the value returned does not depend on these
/// draws. When `actptr` holds a move, the move that last raised `alpha` (or
/// reached `beta`) is copied into it.
///
/// With plies to go the board must be `valid`: every cell empty or holding
/// one of the seven pieces; other cell values lie outside the board model.
pub fn search(actptr: &mut Option<Action>, board: Board, is_ai: bool, depth: u8, alpha: i16, beta: i16) -> (r: i16)
    requires
        depth > 0 ==> valid(grid(board)),
        depth > 0 ==> -32767 <= alpha <= 32767,
        depth > 0 ==> -32767 <= beta <= 32767,
    ensures
        r == alpha_beta(grid(board), is_ai, depth as nat, alpha as int, beta as int),
        (*old(actptr)) is None ==> (*final(actptr)) is None,
        depth == 0 ==> *final(actptr) == *old(actptr),
        depth > 0 && alpha < beta && r == alpha ==> *final(actptr) == *old(actptr),
        depth > 0 && alpha < beta && r != alpha && (*old(actptr)) is Some ==> ((*final(actptr)) matches Some(p) && {
            &&& all_moves(grid(board), is_ai).contains(move_of(p))
            &&& records(grid(board), p, move_of(p))
            &&& (if move_value(grid(board), is_ai, depth as nat, move_of(p)) < beta {
                move_value(grid(board), is_ai, depth as nat, move_of(p))
            } else {
                beta as int
            }) == r
        }),
        depth > 0 && alpha >= beta && cuts(grid(board), is_ai, depth as nat, alpha as int, beta as int, all_moves(grid(board), is_ai))
            && (*old(actptr)) is Some ==> ((*final(actptr)) matches Some(p) && {
            &&& all_moves(grid(board), is_ai).contains(move_of(p))
            &&& records(grid(board), p, move_of(p))
            &&& move_alpha_beta(grid(board), is_ai, depth as nat, move_of(p), alpha as int, beta as int) >= beta
        }),
        depth > 0 && alpha >= beta && !cuts(grid(board), is_ai, depth as nat, alpha as int, beta as int, all_moves(grid(board), is_ai))
            ==> *final(actptr) == *old(actptr),
    decreases depth, 2nat,
{
    if depth == 0 {
        return get_score(board);
    }
    let ghost g = grid(board);
    let ghost d = depth as nat;
    let ghost old_ptr = *actptr;
    let mut a: i16 = alpha;
    let mut rng = get_rand();
    let r: bool = random_bool(&mut rng);
    let mut i: i8 = if r {
        0
    } else {
        8
    };
    while (r && i < 9) || (!r && i >= 0)
        invariant
            g == grid(board),
            d == depth as nat,
            valid(g),
            depth >= 1,
            -32767 <= alpha <= 32767,
            -32767 <= beta <= 32767,
            r ==> 0 <= i <= 9,
            !r ==> -1 <= i <= 8,
            old_ptr == *old(actptr),
            old_ptr is None ==> (*actptr) is None,
            alpha < beta ==> {
                &&& alpha <= a < beta
                &&& forall|xx: int, yy: int, k: int|
                    in_board(xx, yy) && (if r {
                        xx < i
                    } else {
                        xx > i
                    }) && 0 <= k < square_moves(g, is_ai, xx, yy).len() ==> move_value(
                        g,
                        is_ai,
                        d,
                        #[trigger] square_moves(g, is_ai, xx, yy)[k],
                    ) <= a
                &&& a == alpha ==> *actptr == old_ptr
                &&& a != alpha ==> exists|m: Move|
                    all_moves(g, is_ai).contains(m) && move_value(g, is_ai, d, m) == a
                &&& a != alpha && old_ptr is Some ==> ((*actptr) matches Some(p) && {
                    &&& all_moves(g, is_ai).contains(move_of(p))
                    &&& records(g, p, move_of(p))
                    &&& move_value(g, is_ai, d, move_of(p)) == a
                })
            },
            alpha >= beta ==> {
                &&& a == alpha
                &&& forall|xx: int, yy: int, k: int|
                    in_board(xx, yy) && (if r {
                        xx < i
                    } else {
                        xx > i
                    }) && 0 <= k < square_moves(g, is_ai, xx, yy).len() ==> move_alpha_beta(
                        g,
                        is_ai,
                        d,
                        #[trigger] square_moves(g, is_ai, xx, yy)[k],
                        alpha as int,
                        beta as int,
                    ) < beta
                &&& *actptr == old_ptr
            },
        decreases (if r {
            9 - i
        } else {
            i + 1
        }),
    {
        let mut rng1 = get_rand();
        let r1: bool = random_bool(&mut rng1);
        let mut j: i8 = if r1 {
            0
        } else {
            9
        };
        while (r1 && j < 10) || (!r1 && j >= 0)
            invariant
                g == grid(board),
                d == depth as nat,
                valid(g),
                depth >= 1,
                -32767 <= alpha <= 32767,
                -32767 <= beta <= 32767,
                0 <= i < 9,
                r1 ==> 0 <= j <= 10,
                !r1 ==> -1 <= j <= 9,
                old_ptr == *old(actptr),
                old_ptr is None ==> (*actptr) is None,
                alpha < beta ==> {
                    &&& alpha <= a < beta
                    &&& forall|xx: int, yy: int, k: int|
                        in_board(xx, yy) && ((if r {
                            xx < i
                        } else {
                            xx > i
                        }) || (xx == i && (if r1 {
                            yy < j
                        } else {
                            yy > j
                        }))) && 0 <= k < square_moves(g, is_ai, xx, yy).len() ==> move_value(
                            g,
                            is_ai,
                            d,
                            #[trigger] square_moves(g, is_ai, xx, yy)[k],
                        ) <= a
                    &&& a == alpha ==> *actptr == old_ptr
                    &&& a != alpha ==> exists|m: Move|
                        all_moves(g, is_ai).contains(m) && move_value(g, is_ai, d, m) == a
                    &&& a != alpha && old_ptr is Some ==> ((*actptr) matches Some(p) && {
                        &&& all_moves(g, is_ai).contains(move_of(p))
                        &&& records(g, p, move_of(p))
                        &&& move_value(g, is_ai, d, move_of(p)) == a
                    })
                },
                alpha >= beta ==> {
                    &&& a == alpha
                    &&& forall|xx: int, yy: int, k: int|
                        in_board(xx, yy) && ((if r {
                            xx < i
                        } else {
                            xx > i
                        }) || (xx == i && (if r1 {
                            yy < j
                        } else {
                            yy > j
                        }))) && 0 <= k < square_moves(g, is_ai, xx, yy).len() ==> move_alpha_beta(
                            g,
                            is_ai,
                            d,
                            #[trigger] square_moves(g, is_ai, xx, yy)[k],
                            alpha as int,
                            beta as int,
                        ) < beta
                    &&& *actptr == old_ptr
                },
            decreases (if r1 {
                10 - j
            } else {
                j + 1
            }),
        {
            let p = board[j as usize][i as usize];
            if p != 0 && (p > 0) == is_ai {
                let (cut, a2) = search_piece(actptr, board, is_ai, depth, i as u8, j as u8, a, beta);
                if cut {
                    proof {
                        if alpha < beta {
                            let m = choose|m: Move|
                                all_moves(g, is_ai).contains(m) && move_value(g, is_ai, d, m) >= beta;
                            lemma_open_window_cut(g, is_ai, d, alpha as int, beta as int, m);
                        } else {
                            let m = choose|m: Move|
                                all_moves(g, is_ai).contains(m) && move_alpha_beta(
                                    g,
                                    is_ai,
                                    d,
                                    m,
                                    alpha as int,
                                    beta as int,
                                ) >= beta;
                            lemma_empty_window_cut(g, is_ai, d, alpha as int, beta as int, m);
                        }
                    }
                    return beta;
                }
                a = a2;
            } else {
                proof {
                    lemma_grid_shaped(board);
                    assert(square_moves(g, is_ai, i as int, j as int).len() == 0);
                }
            }
            if r1 {
                j += 1;
            } else {
                j -= 1;
            }
        }
        if r {
            i += 1;
        } else {
            i -= 1;
        }
    }
    proof {
        if alpha < beta {
            if a != alpha {
                let m = choose|m: Move| all_moves(g, is_ai).contains(m) && move_value(g, is_ai, d, m) == a;
                lemma_open_window_result(g, is_ai, d, alpha as int, beta as int, a as int, m);
            } else {
                lemma_open_window_result(g, is_ai, d, alpha as int, beta as int, a as int, (0, 0, 0, 0));
            }
        } else {
            lemma_empty_window_result(g, is_ai, d, alpha as int, beta as int);
        }
    }
    a
}

/// The engine's turn: searches four plies for the side `true` with the
/// window `(-2000, 2000)`, makes the move found on `board` and records it.
/// Returns the search value and the move made. When no move raises the
/// value above -2000 the move stays the placeholder from (0, 0) to (0, 0),
/// which empties that corner.
pub fn run_ai(board: &mut Board, history: &mut History) -> (res: (i16, Action))
    requires
        valid(grid(*old(board))),
        old(history).wf(),
        old(history)@.len() < HISTORY_CAPACITY,
    ensures
        res.0 == alpha_beta(grid(*old(board)), true, 4, -2000, 2000),
        res.0 == clamp(negamax(grid(*old(board)), true, 4), -2000, 2000),
        records(grid(*old(board)), res.1, move_of(res.1)),
        res.0 == -2000 ==> move_of(res.1) == (0int, 0int, 0int, 0int),
        res.0 != -2000 ==> all_moves(grid(*old(board)), true).contains(move_of(res.1)),
        res.0 != -2000 ==> (if move_value(grid(*old(board)), true, 4, move_of(res.1)) < 2000 {
            move_value(grid(*old(board)), true, 4, move_of(res.1))
        } else {
            2000
        }) == res.0,
        grid(*final(board)) == applied(
            grid(*old(board)),
            res.1.src.x as int,
            res.1.src.y as int,
            res.1.tar.x as int,
            res.1.tar.y as int,
        ),
        valid(grid(*final(board))),
        final(history).wf(),
        final(history)@ == old(history)@.push(res.1),
{
    let ghost g = grid(*board);
    let mut act = Some(Action::new(0, 0, 0, 0));
    let score = search(&mut act, *board, true, 4, -2000, 2000);
    let mut chosen = act.unwrap();
    proof {
        if score != -2000 {
            lemma_all_moves_fair(g, true, move_of(chosen));
        }
    }
    do_action(board, &mut chosen, true, history);
    proof {
        lemma_move_keeps_valid(
            g,
            chosen.src.x as int,
            chosen.src.y as int,
            chosen.tar.x as int,
            chosen.tar.y as int,
        );
    }
    (score, chosen)
}

} // verus!
