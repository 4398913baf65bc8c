//! The move enumerator and the depth-limited negamax search with
//! alpha-beta pruning.
//!
//! `legal_moves` is the canonically ordered list of legal rectangles;
//! `negamax` and `best_from` define the unpruned full-width search value
//! and its chosen move. The executable `simulate` prunes with an
//! alpha-beta window and is proved to return the unpruned score and move
//! whenever the true value lies strictly inside the window; its callers
//! open the window fully, so pruning never changes the decision.

use vstd::prelude::*;

use crate::game::Game;
use crate::game::Rect;
use crate::game::clone_grid;
use crate::game::legal_rect;
use crate::game::rect_c1;
use crate::game::rect_c2;
use crate::game::rect_r1;
use crate::game::rect_r2;
use crate::grid::COLS;
use crate::grid::ROWS;
use crate::grid::board_wf;
use crate::grid::eval;
use crate::grid::grid_dims;
use crate::grid::gv;
use crate::grid::legal;
use crate::grid::lemma_eval_bounds;
use crate::grid::overwrite_rect;
use crate::grid::terr_wf;

verus! {

/// Search horizon: plies explored before static evaluation.
pub const DEPTH: usize = 2;
/// Turn cap: confirmed turn count at which search stops exploring.
pub const TURN_CAP: usize = 10;
/// Score bound standing for infinity in alpha-beta windows; it exceeds
/// every reachable evaluation, which is at most the cell count.
pub const INF: i32 = 1000000;

/// The legal rectangles with top row `r1`, bottom row `r2`, left column
/// `c1`, and right column at least `c2`, in ascending right-column order.
pub open spec fn rects_c2(g: Seq<Seq<i32>>, r1: int, r2: int, c1: int, c2: int) -> Seq<Rect>
    decreases COLS - c2,
{
    if c2 < 0 || c2 >= COLS {
        Seq::empty()
    } else {
        let rest = rects_c2(g, r1, r2, c1, c2 + 1);
        if legal(g, r1, c1, r2, c2) {
            seq![(r1 as usize, c1 as usize, r2 as usize, c2 as usize)] + rest
        } else {
            rest
        }
    }
}

/// The legal rectangles with rows `r1..r2` and left column at least `c1`,
/// ordered by left column, then right column.
pub open spec fn rects_c1(g: Seq<Seq<i32>>, r1: int, r2: int, c1: int) -> Seq<Rect>
    decreases COLS - c1,
{
    if c1 < 0 || c1 >= COLS {
        Seq::empty()
    } else {
        rects_c2(g, r1, r2, c1, c1) + rects_c1(g, r1, r2, c1 + 1)
    }
}

/// The legal rectangles with top row `r1` and bottom row at least `r2`,
/// ordered by bottom row, then columns.
pub open spec fn rects_r2(g: Seq<Seq<i32>>, r1: int, r2: int) -> Seq<Rect>
    decreases ROWS - r2,
{
    if r2 < 0 || r2 >= ROWS {
        Seq::empty()
    } else {
        rects_c1(g, r1, r2, 0) + rects_r2(g, r1, r2 + 1)
    }
}

/// The legal rectangles with top row at least `r1`, in canonical order.
pub open spec fn rects_r1(g: Seq<Seq<i32>>, r1: int) -> Seq<Rect>
    decreases ROWS - r1,
{
    if r1 < 0 || r1 >= ROWS {
        Seq::empty()
    } else {
        rects_r2(g, r1, r1) + rects_r1(g, r1 + 1)
    }
}

/// Every legal rectangle of board `g`, in the canonical enumeration order:
/// top row, then bottom row, then left column, then right column.
pub open spec fn legal_moves(g: Seq<Seq<i32>>) -> Seq<Rect> {
    rects_r1(g, 0)
}

/// The board after a move clears its rectangle.
pub open spec fn child_board(b: Seq<Seq<i32>>, m: Rect) -> Seq<Seq<i32>> {
    overwrite_rect(b, rect_r1(m), rect_c1(m), rect_r2(m), rect_c2(m), 0)
}

/// The territory map after a move stamps its rectangle with `color`.
pub open spec fn child_terr(t: Seq<Seq<i32>>, m: Rect, color: int) -> Seq<Seq<i32>> {
    overwrite_rect(t, rect_r1(m), rect_c1(m), rect_r2(m), rect_c2(m), if color == 1 {
        1i32
    } else {
        -1i32
    })
}

/// The unpruned full-width negamax value of a position, from the
/// perspective of the side `color` about to move.
pub open spec fn negamax(b: Seq<Seq<i32>>, t: Seq<Seq<i32>>, turn: int, depth: int, color: int)
    -> int
    decreases DEPTH - depth, legal_moves(b).len() + 1,
{
    if depth >= DEPTH || turn >= TURN_CAP {
        color * eval(t)
    } else if legal_moves(b).len() == 0 {
        color * eval(t)
    } else {
        best_from(b, t, turn, depth, color, 0).0
    }
}

/// The best value over the moves `legal_moves(b)[i..]`, with the
/// canonically first move attaining it; strictly below any reachable
/// value when no move is left.
pub open spec fn best_from(
    b: Seq<Seq<i32>>,
    t: Seq<Seq<i32>>,
    turn: int,
    depth: int,
    color: int,
    i: int,
) -> (int, Option<Rect>)
    decreases DEPTH - depth, legal_moves(b).len() - i,
{
    if depth >= DEPTH || !(0 <= i < legal_moves(b).len()) {
        (-(INF as int) - 1, None)
    } else {
        let m = legal_moves(b)[i];
        let v = -negamax(child_board(b, m), child_terr(t, m, color), turn + 1, depth + 1, -color);
        let rest = best_from(b, t, turn, depth, color, i + 1);
        if v >= rest.0 {
            (v, Some(m))
        } else {
            rest
        }
    }
}

/// The better of two scored candidates, preferring the first on ties.
pub open spec fn pair_max(a: (int, Option<Rect>), b: (int, Option<Rect>)) -> (int, Option<Rect>) {
    if a.0 >= b.0 {
        a
    } else {
        b
    }
}

/// The larger of two integers.
pub open spec fn smax(a: int, b: int) -> int {
    if a >= b {
        a
    } else {
        b
    }
}

/// Every rectangle of `rects_c2` is a legal move of `g`.
proof fn lemma_rects_c2_legal(g: Seq<Seq<i32>>, r1: int, r2: int, c1: int, c2: int)
    requires
        0 <= r1 <= r2 < ROWS,
        0 <= c1 < COLS,
    ensures
        forall|i: int|
            0 <= i < rects_c2(g, r1, r2, c1, c2).len() ==> legal_rect(g, #[trigger] rects_c2(g,
                r1, r2, c1, c2)[i]),
    decreases COLS - c2,
{
    if 0 <= c2 < COLS {
        lemma_rects_c2_legal(g, r1, r2, c1, c2 + 1);
        let s = rects_c2(g, r1, r2, c1, c2);
        let rest = rects_c2(g, r1, r2, c1, c2 + 1);
        assert forall|i: int| 0 <= i < s.len() implies legal_rect(g, #[trigger] s[i]) by {
            if legal(g, r1, c1, r2, c2) {
                if i == 0 {
                    assert(s[i] == (r1 as usize, c1 as usize, r2 as usize, c2 as usize));
                } else {
                    assert(s[i] == rest[i - 1]);
                }
            } else {
                assert(s[i] == rest[i]);
            }
        }
    }
}

/// Every rectangle of `rects_c1` is a legal move of `g`.
proof fn lemma_rects_c1_legal(g: Seq<Seq<i32>>, r1: int, r2: int, c1: int)
    requires
        0 <= r1 <= r2 < ROWS,
    ensures
        forall|i: int|
            0 <= i < rects_c1(g, r1, r2, c1).len() ==> legal_rect(g, #[trigger] rects_c1(g, r1,
                r2, c1)[i]),
    decreases COLS - c1,
{
    if 0 <= c1 < COLS {
        lemma_rects_c2_legal(g, r1, r2, c1, c1);
        lemma_rects_c1_legal(g, r1, r2, c1 + 1);
        let s = rects_c1(g, r1, r2, c1);
        let a = rects_c2(g, r1, r2, c1, c1);
        let b = rects_c1(g, r1, r2, c1 + 1);
        assert forall|i: int| 0 <= i < s.len() implies legal_rect(g, #[trigger] s[i]) by {
            if i < a.len() {
                assert(s[i] == a[i]);
            } else {
                assert(s[i] == b[i - a.len()]);
            }
        }
    }
}

/// Every rectangle of `rects_r2` is a legal move of `g`.
proof fn lemma_rects_r2_legal(g: Seq<Seq<i32>>, r1: int, r2: int)
    requires
        0 <= r1 < ROWS,
    ensures
        forall|i: int|
            0 <= i < rects_r2(g, r1, r2).len() ==> legal_rect(g, #[trigger] rects_r2(g, r1,
                r2)[i]),
    decreases ROWS - r2,
{
    if 0 <= r2 < ROWS {
        if r1 <= r2 {
            lemma_rects_c1_legal(g, r1, r2, 0);
        } else {
            lemma_rects_c1_empty_when_misordered(g, r1, r2, 0);
        }
        lemma_rects_r2_legal(g, r1, r2 + 1);
        let s = rects_r2(g, r1, r2);
        let a = rects_c1(g, r1, r2, 0);
        let b = rects_r2(g, r1, r2 + 1);
        assert forall|i: int| 0 <= i < s.len() implies legal_rect(g, #[trigger] s[i]) by {
            if i < a.len() {
                assert(s[i] == a[i]);
            } else {
                assert(s[i] == b[i - a.len()]);
            }
        }
    }
}

/// With its rows misordered no rectangle is legal, so the list is empty.
proof fn lemma_rects_c1_empty_when_misordered(g: Seq<Seq<i32>>, r1: int, r2: int, c1: int)
    requires
        r2 < r1,
    ensures
        rects_c1(g, r1, r2, c1).len() == 0,
    decreases COLS - c1,
{
    if 0 <= c1 < COLS {
        lemma_rects_c2_empty_when_misordered(g, r1, r2, c1, c1);
        lemma_rects_c1_empty_when_misordered(g, r1, r2, c1 + 1);
    }
}

proof fn lemma_rects_c2_empty_when_misordered(g: Seq<Seq<i32>>, r1: int, r2: int, c1: int, c2: int)
    requires
        r2 < r1,
    ensures
        rects_c2(g, r1, r2, c1, c2).len() == 0,
    decreases COLS - c2,
{
    if 0 <= c2 < COLS {
        lemma_rects_c2_empty_when_misordered(g, r1, r2, c1, c2 + 1);
    }
}

/// Every element of the canonical move list is a legal move of `g`.
pub proof fn lemma_legal_moves_legal_from(g: Seq<Seq<i32>>, r1: int)
    ensures
        forall|i: int|
            0 <= i < rects_r1(g, r1).len() ==> legal_rect(g, #[trigger] rects_r1(g, r1)[i]),
    decreases ROWS - r1,
{
    if 0 <= r1 < ROWS {
        lemma_rects_r2_legal(g, r1, r1);
        lemma_legal_moves_legal_from(g, r1 + 1);
        let s = rects_r1(g, r1);
        let a = rects_r2(g, r1, r1);
        let b = rects_r1(g, r1 + 1);
        assert forall|i: int| 0 <= i < s.len() implies legal_rect(g, #[trigger] s[i]) by {
            if i < a.len() {
                assert(s[i] == a[i]);
            } else {
                assert(s[i] == b[i - a.len()]);
            }
        }
    }
}

/// Every element of `legal_moves(g)` is a legal move of `g`.
pub proof fn lemma_legal_moves_legal(g: Seq<Seq<i32>>)
    ensures
        forall|i: int|
            0 <= i < legal_moves(g).len() ==> legal_rect(g, #[trigger] legal_moves(g)[i]),
{
    lemma_legal_moves_legal_from(g, 0);
}

/// Clearing a rectangle of a well-formed board keeps it well-formed, and
/// stamping a rectangle of a well-formed territory map with a color does.
pub proof fn lemma_child_wf(b: Seq<Seq<i32>>, t: Seq<Seq<i32>>, m: Rect, color: int)
    requires
        board_wf(b),
        terr_wf(t),
        legal_rect(b, m),
        color == 1 || color == -1,
    ensures
        board_wf(child_board(b, m)),
        terr_wf(child_terr(t, m, color)),
{
    assert forall|r: int, c: int| 0 <= r < ROWS && 0 <= c < COLS implies 0 <= #[trigger]
        child_board(b, m)[r][c] <= 9 by {
        assert(0 <= b[r][c] <= 9);
    }
    assert forall|r: int, c: int| 0 <= r < ROWS && 0 <= c < COLS implies -1 <= #[trigger]
        child_terr(t, m, color)[r][c] <= 1 by {
        assert(-1 <= t[r][c] <= 1);
    }
}

/// The full-width negamax value is bounded by the cell count: it is an
/// evaluation of some reachable territory map.
pub proof fn lemma_negamax_bounds(
    b: Seq<Seq<i32>>,
    t: Seq<Seq<i32>>,
    turn: int,
    depth: int,
    color: int,
)
    requires
        board_wf(b),
        terr_wf(t),
        color == 1 || color == -1,
    ensures
        -((ROWS * COLS) as int) <= negamax(b, t, turn, depth, color) <= (ROWS * COLS) as int,
    decreases DEPTH - depth, legal_moves(b).len() + 1,
{
    if depth >= DEPTH || turn >= TURN_CAP || legal_moves(b).len() == 0 {
        lemma_eval_bounds(t);
    } else {
        lemma_best_from_bounds(b, t, turn, depth, color, 0);
    }
}

/// The best value over a nonempty tail of the move list is bounded by the
/// cell count, and a move attaining it is named.
pub proof fn lemma_best_from_bounds(
    b: Seq<Seq<i32>>,
    t: Seq<Seq<i32>>,
    turn: int,
    depth: int,
    color: int,
    i: int,
)
    requires
        board_wf(b),
        terr_wf(t),
        color == 1 || color == -1,
        0 <= i < legal_moves(b).len(),
        depth < DEPTH,
    ensures
        -((ROWS * COLS) as int) <= best_from(b, t, turn, depth, color, i).0 <= (ROWS
            * COLS) as int,
        best_from(b, t, turn, depth, color, i).1 is Some,
    decreases DEPTH - depth, legal_moves(b).len() - i,
{
    let m = legal_moves(b)[i];
    lemma_legal_moves_legal(b);
    lemma_child_wf(b, t, m, color);
    lemma_negamax_bounds(child_board(b, m), child_terr(t, m, color), turn + 1, depth + 1, -color);
    if i + 1 < legal_moves(b).len() {
        lemma_best_from_bounds(b, t, turn, depth, color, i + 1);
    }
}

/// The decision of the root search on a position: a pass when the turn
/// cap is reached or no rectangle is legal, else the canonically first
/// move attaining the best full-width negamax value.
pub open spec fn search_decision(b: Seq<Seq<i32>>, t: Seq<Seq<i32>>, turn: int) -> Option<Rect> {
    if turn >= TURN_CAP {
        None
    } else if legal_moves(b).len() == 0 {
        None
    } else {
        best_from(b, t, turn, 0, 1, 0).1
    }
}

/// The search decision is a pure function of the position: bit-identical
/// states are given identical scores and identical chosen moves.
pub proof fn lemma_search_deterministic(
    b1: Seq<Seq<i32>>,
    t1: Seq<Seq<i32>>,
    b2: Seq<Seq<i32>>,
    t2: Seq<Seq<i32>>,
    turn: int,
    depth: int,
    color: int,
)
    requires
        b1 == b2,
        t1 == t2,
    ensures
        negamax(b1, t1, turn, depth, color) == negamax(b2, t2, turn, depth, color),
        best_from(b1, t1, turn, depth, color, 0) == best_from(b2, t2, turn, depth, color, 0),
{
}

impl Game {
    /// Depth-limited negamax search with fail-hard alpha-beta pruning.
    ///
    /// Returns a score and a move-or-pass. At the horizon, at the turn
    /// cap, and at a node with no legal move, the position is evaluated
    /// as it stands, from the perspective of `color`. Otherwise the legal
    /// moves are tried in canonical order, each applied, explored one ply
    /// deeper with the negated narrowed window, and undone from full
    /// snapshots before the next candidate; a strict improvement updates
    /// the best move, and the loop stops early once `alpha` reaches
    /// `beta`. Whenever the unpruned full-width value lies strictly
    /// inside the given window, the returned score is exactly that value
    /// and the returned move is the canonically first maximizer, so
    /// pruning never changes the result reported from a full window; a
    /// value at or outside the window bound is answered with a score on
    /// the same side of that bound. The state is restored exactly: the
    /// caller's grids and counters never observe the speculation.
    #[verifier::loop_isolation(false)]
    #[verifier::rlimit(100)]
    pub fn simulate(&mut self, alpha: i32, beta: i32, depth: usize, color: i32) -> (res: (
        i32,
        Option<Rect>,
    ))
        requires
            old(self).wf(),
            -INF <= alpha < beta <= INF,
            color == 1 || color == -1,
            depth <= DEPTH,
        ensures
            final(self).wf(),
            final(self).bv() == old(self).bv(),
            final(self).tv() == old(self).tv(),
            final(self).turn_counter == old(self).turn_counter,
            final(self).passed == old(self).passed,
            final(self).first == old(self).first,
            -INF <= res.0 <= INF,
            (match res.1 {
                Some(mm) => legal_rect(old(self).bv(), mm),
                None => true,
            }),
            (depth >= DEPTH || old(self).turn_counter >= TURN_CAP) ==> res.0 == (color as int)
                * eval(old(self).tv()) && res.1 is None,
            (depth < DEPTH && old(self).turn_counter < TURN_CAP && legal_moves(
                old(self).bv(),
            ).len() == 0) ==> res.0 == (color as int) * eval(old(self).tv()) && res.1 is None,
            ({
                let v = negamax(old(self).bv(), old(self).tv(), old(self).turn_counter as int,
                    depth as int, color as int);
                &&& ((alpha as int) < v < (beta as int) ==> res.0 == v)
                &&& (v <= alpha as int ==> res.0 <= alpha)
                &&& (v >= beta as int ==> res.0 >= beta)
                &&& ((depth < DEPTH && old(self).turn_counter < TURN_CAP && legal_moves(
                    old(self).bv(),
                ).len() > 0 && (alpha as int) < v < (beta as int)) ==> res.1 == best_from(
                    old(self).bv(), old(self).tv(), old(self).turn_counter as int, depth as int,
                    color as int, 0).1)
            }),
        decreases DEPTH - depth,
    {
        let ghost b0 = old(self).bv();
        let ghost t0 = old(self).tv();
        let ghost turn0 = old(self).turn_counter;
        let ghost turn_i = turn0 as int;
        let ghost depth_i = depth as int;
        let ghost color_i = color as int;
        if depth >= DEPTH || self.turn_counter >= TURN_CAP {
            let e = self.calculate_board_value();
            let score: i32 = if color == 1 {
                e
            } else {
                0 - e
            };
            return (score, None);
        }
        let moves = self.enumerate_moves();
        if moves.len() == 0 {
            let e = self.calculate_board_value();
            let score: i32 = if color == 1 {
                e
            } else {
                0 - e
            };
            return (score, None);
        }
        proof {
            lemma_best_from_bounds(b0, t0, turn_i, depth_i, color_i, 0);
        }
        let board_backup = clone_grid(&self.board);
        let terr_backup = clone_grid(&self.territory);
        let mut best_value: i32 = -INF - 1;
        let mut best_move: Option<Rect> = None;
        let mut al = alpha;
        let ghost mut p_best: int = -(INF as int) - 1;
        let ghost mut p_move: Option<Rect> = None;
        let mut i: usize = 0;
        while i < moves.len()
            invariant
                self.wf(),
                self.bv() == b0,
                self.tv() == t0,
                self.turn_counter == turn0,
                self.passed == old(self).passed,
                self.first == old(self).first,
                gv(board_backup@) == b0,
                gv(terr_backup@) == t0,
                0 <= i <= moves.len(),
                alpha <= al < beta,
                best_value <= al,
                al == alpha || al == best_value,
                -INF - 1 <= best_value <= INF,
                i == 0 ==> best_value == -INF - 1 && best_move is None && p_best == -(
                INF as int) - 1 && p_move is None,
                i > 0 ==> -INF <= best_value,
                pair_max((p_best, p_move), best_from(b0, t0, turn_i, depth_i, color_i, i as int))
                    == best_from(b0, t0, turn_i, depth_i, color_i, 0),
                best_value as int <= smax(alpha as int, p_best),
                (alpha as int) < p_best < (beta as int) ==> best_value as int == p_best
                    && best_move == p_move,
                p_best < beta as int,
                -(INF as int) - 1 <= p_best,
                (match best_move {
                    Some(mm) => legal_rect(b0, mm),
                    None => true,
                }),
            decreases moves.len() - i,
        {
            let m = moves[i];
            proof {
                lemma_legal_moves_legal(b0);
                assert(legal_rect(b0, m));
                lemma_child_wf(b0, t0, m, color_i);
            }
            let ghost cb = child_board(b0, m);
            let ghost ct = child_terr(t0, m, color_i);
            self.make_move(m.0, m.1, m.2, m.3, color);
            proof {
                assert(self.bv() == cb);
                assert(self.tv() == ct);
            }
            self.turn_counter = self.turn_counter + 1;
            let nb = -beta;
            let na = -al;
            let child = self.simulate(nb, na, depth + 1, -color);
            let cs = child.0;
            self.turn_counter = self.turn_counter - 1;
            let bb = clone_grid(&board_backup);
            let tb = clone_grid(&terr_backup);
            self.restore(bb, tb);
            let val = -cs;
            let ghost u = negamax(cb, ct, turn_i + 1, depth_i + 1, -color_i);
            let ghost vt = -u;
            let ghost old_p_best = p_best;
            let ghost old_p_move = p_move;
            let ghost rest = best_from(b0, t0, turn_i, depth_i, color_i, i + 1);
            let ghost cur = best_from(b0, t0, turn_i, depth_i, color_i, i as int);
            proof {
                lemma_negamax_bounds(cb, ct, turn_i + 1, depth_i + 1, -color_i);
                assert(legal_moves(b0)[i as int] == m);
                assert(cur == pair_max((vt, Some(m)), rest));
                assert((al as int) < vt < (beta as int) ==> val == vt);
                assert(vt <= al as int ==> val <= al);
                assert(vt >= beta as int ==> val >= beta);
                if vt > p_best {
                    p_best = vt;
                    p_move = Some(m);
                }
                assert(pair_max((p_best, p_move), rest) == pair_max((old_p_best, old_p_move),
                    cur));
                assert(pair_max((p_best, p_move), rest) == best_from(b0, t0, turn_i, depth_i,
                    color_i, 0));
            }
            if val > best_value {
                best_value = val;
                best_move = Some(m);
                if val > al {
                    al = val;
                }
                if al >= beta {
                    proof {
                        assert(vt >= beta as int);
                        assert(best_from(b0, t0, turn_i, depth_i, color_i, 0).0 >= vt);
                        assert(negamax(b0, t0, turn_i, depth_i, color_i) >= beta as int);
                    }
                    return (al, best_move);
                }
            }
            proof {
                assert(vt < beta as int);
                assert(p_best < beta as int);
                assert(best_value as int <= smax(alpha as int, p_best));
                assert((alpha as int) < p_best < (beta as int) ==> best_value as int == p_best
                    && best_move == p_move);
            }
            i += 1;
        }
        proof {
            assert(best_from(b0, t0, turn_i, depth_i, color_i, i as int) == (-(INF as int) - 1,
                None::<Rect>));
            assert(best_from(b0, t0, turn_i, depth_i, color_i, 0) == (p_best, p_move));
            assert(negamax(b0, t0, turn_i, depth_i, color_i) == p_best);
        }
        (best_value, best_move)
    }

    /// Decides this side's move for the current position: the root
    /// search call, with the window fully open, the caller's own
    /// perspective, and depth zero. Returns the canonically first move
    /// attaining the best full-width negamax value, or a pass when the
    /// turn cap is reached or no rectangle is legal. The state is left
    /// exactly as it was; the time budgets are informational only.
    pub fn calculate_move(&mut self, _my_time: i32, _opp_time: i32) -> (mv: Option<Rect>)
        requires
            old(self).wf(),
        ensures
            final(self).wf(),
            final(self).bv() == old(self).bv(),
            final(self).tv() == old(self).tv(),
            final(self).turn_counter == old(self).turn_counter,
            final(self).passed == old(self).passed,
            final(self).first == old(self).first,
            mv == search_decision(old(self).bv(), old(self).tv(), old(self).turn_counter as int),
            (match mv {
                Some(mm) => legal_rect(old(self).bv(), mm),
                None => true,
            }),
    {
        let ghost b0 = old(self).bv();
        let ghost t0 = old(self).tv();
        let ghost turn_i = old(self).turn_counter as int;
        let res = self.simulate(-INF, INF, 0, 1);
        proof {
            lemma_negamax_bounds(b0, t0, turn_i, 0, 1);
            let v = negamax(b0, t0, turn_i, 0, 1);
            assert(-(INF as int) < v < INF as int);
        }
        res.1
    }

    /// Produces every legal rectangle of the current board, in the
    /// canonical order: top row ascending, then bottom row, then left
    /// column, then right column.
    pub fn enumerate_moves(&self) -> (moves: Vec<Rect>)
        requires
            self.wf(),
        ensures
            moves@ == legal_moves(self.bv()),
    {
        let ghost g = self.bv();
        let mut moves: Vec<Rect> = Vec::new();
        let mut r1: usize = 0;
        while r1 < ROWS
            invariant
                self.wf(),
                g == self.bv(),
                r1 <= ROWS,
                moves@ + rects_r1(g, r1 as int) == legal_moves(g),
            decreases ROWS - r1,
        {
            let mut r2: usize = r1;
            proof {
                assert(rects_r1(g, r1 as int) == rects_r2(g, r1 as int, r1 as int) + rects_r1(g,
                    r1 + 1));
            }
            while r2 < ROWS
                invariant
                    self.wf(),
                    g == self.bv(),
                    r1 < ROWS,
                    r1 <= r2 <= ROWS,
                    moves@ + rects_r2(g, r1 as int, r2 as int) + rects_r1(g, r1 + 1)
                        == legal_moves(g),
                decreases ROWS - r2,
            {
                let mut c1: usize = 0;
                proof {
                    assert(rects_r2(g, r1 as int, r2 as int) == rects_c1(g, r1 as int, r2 as int,
                        0) + rects_r2(g, r1 as int, r2 + 1));
                    assert(moves@ + (rects_c1(g, r1 as int, r2 as int, 0) + rects_r2(g, r1 as int,
                        r2 + 1)) + rects_r1(g, r1 + 1) =~= moves@ + rects_c1(g, r1 as int,
                        r2 as int, 0) + rects_r2(g, r1 as int, r2 + 1) + rects_r1(g, r1 + 1));
                }
                while c1 < COLS
                    invariant
                        self.wf(),
                        g == self.bv(),
                        r1 < ROWS,
                        r1 <= r2 < ROWS,
                        c1 <= COLS,
                        moves@ + rects_c1(g, r1 as int, r2 as int, c1 as int) + rects_r2(g,
                            r1 as int, r2 + 1) + rects_r1(g, r1 + 1) == legal_moves(g),
                    decreases COLS - c1,
                {
                    let mut c2: usize = c1;
                    proof {
                        assert(rects_c1(g, r1 as int, r2 as int, c1 as int) == rects_c2(g,
                            r1 as int, r2 as int, c1 as int, c1 as int) + rects_c1(g, r1 as int,
                            r2 as int, c1 + 1));
                        assert(moves@ + (rects_c2(g, r1 as int, r2 as int, c1 as int, c1 as int)
                            + rects_c1(g, r1 as int, r2 as int, c1 + 1)) + rects_r2(g, r1 as int,
                            r2 + 1) + rects_r1(g, r1 + 1) =~= moves@ + rects_c2(g, r1 as int,
                            r2 as int, c1 as int, c1 as int) + rects_c1(g, r1 as int, r2 as int,
                            c1 + 1) + rects_r2(g, r1 as int, r2 + 1) + rects_r1(g, r1 + 1));
                    }
                    while c2 < COLS
                        invariant
                            self.wf(),
                            g == self.bv(),
                            r1 < ROWS,
                            r1 <= r2 < ROWS,
                            c1 < COLS,
                            c1 <= c2 <= COLS,
                            moves@ + rects_c2(g, r1 as int, r2 as int, c1 as int, c2 as int)
                                + rects_c1(g, r1 as int, r2 as int, c1 + 1) + rects_r2(g,
                                r1 as int, r2 + 1) + rects_r1(g, r1 + 1) == legal_moves(g),
                        decreases COLS - c2,
                    {
                        let ghost tail = rects_c2(g, r1 as int, r2 as int, c1 as int, c2 + 1);
                        let ghost prev = moves@;
                        let ghost m: Rect = (r1, c1, r2, c2);
                        if self.is_valid(r1, c1, r2, c2) {
                            moves.push((r1, c1, r2, c2));
                            proof {
                                assert(rects_c2(g, r1 as int, r2 as int, c1 as int, c2 as int)
                                    == seq![m] + tail);
                                assert(moves@ =~= prev + seq![m]);
                                assert((prev + seq![m]) + tail =~= prev + (seq![m] + tail));
                                assert(moves@ + tail == prev + rects_c2(g, r1 as int, r2 as int,
                                    c1 as int, c2 as int));
                            }
                        } else {
                            proof {
                                assert(rects_c2(g, r1 as int, r2 as int, c1 as int, c2 as int)
                                    == tail);
                            }
                        }
                        c2 += 1;
                    }
                    proof {
                        assert(rects_c2(g, r1 as int, r2 as int, c1 as int, COLS as int).len()
                            == 0);
                        assert(moves@ + rects_c1(g, r1 as int, r2 as int, c1 + 1) + rects_r2(g,
                            r1 as int, r2 + 1) + rects_r1(g, r1 + 1) =~= legal_moves(g));
                    }
                    c1 += 1;
                }
                proof {
                    assert(rects_c1(g, r1 as int, r2 as int, COLS as int).len() == 0);
                    assert(moves@ + rects_r2(g, r1 as int, r2 + 1) + rects_r1(g, r1 + 1)
                        =~= legal_moves(g));
                }
                r2 += 1;
            }
            proof {
                assert(rects_r2(g, r1 as int, ROWS as int).len() == 0);
                assert(moves@ + rects_r1(g, r1 + 1) =~= legal_moves(g));
            }
            r1 += 1;
        }
        proof {
            assert(rects_r1(g, ROWS as int).len() == 0);
            assert(moves@ =~= legal_moves(g));
        }
        moves
    }
}

} // verus!
