//! Game state: the board, the territory map, and the confirmed-move history
//! counters, with the executable mutate-and-undo operations of the engine.

use vstd::prelude::*;

use crate::grid::COLS;
use crate::grid::ROWS;
use crate::grid::board_wf;
use crate::grid::col_has_nz;
use crate::grid::eval;
use crate::grid::grid_total;
use crate::grid::gv;
use crate::grid::legal;
use crate::grid::lemma_eval_bounds;
use crate::grid::lemma_grid_total_bounds;
use crate::grid::lemma_rect_sum_nonneg;
use crate::grid::lemma_rect_sum_split;
use crate::grid::lemma_row_sum_bounds;
use crate::grid::lemma_row_sum_split;
use crate::grid::overwrite_rect;
use crate::grid::rect_sum;
use crate::grid::row_has_nz;
use crate::grid::row_sum;
use crate::grid::terr_wf;

verus! {

/// A move: an inclusive rectangle (r1, c1, r2, c2). A pass is `None`.
pub type Rect = (usize, usize, usize, usize);

/// The rectangle, as mathematical corner coordinates.
pub open spec fn rect_r1(m: Rect) -> int {
    m.0 as int
}

pub open spec fn rect_c1(m: Rect) -> int {
    m.1 as int
}

pub open spec fn rect_r2(m: Rect) -> int {
    m.2 as int
}

pub open spec fn rect_c2(m: Rect) -> int {
    m.3 as int
}

/// The rectangle is a legal move on board `g`.
pub open spec fn legal_rect(g: Seq<Seq<i32>>, m: Rect) -> bool {
    legal(g, rect_r1(m), rect_c1(m), rect_r2(m), rect_c2(m))
}

/// Writes one cell of a grid, leaving every other cell unchanged.
pub fn set_cell(g: &mut Vec<Vec<i32>>, r: usize, c: usize, val: i32)
    requires
        r < old(g)@.len(),
        c < old(g)@[r as int]@.len(),
    ensures
        final(g)@.len() == old(g)@.len(),
        forall|rr: int| 0 <= rr < old(g)@.len() ==> #[trigger] gv(final(g)@)[rr].len() == gv(
            old(g)@)[rr].len(),
        forall|rr: int, cc: int|
            0 <= rr < old(g)@.len() && 0 <= cc < gv(old(g)@)[rr].len() && !(rr == r && cc == c)
                ==> #[trigger] gv(final(g)@)[rr][cc] == gv(old(g)@)[rr][cc],
        gv(final(g)@)[r as int][c as int] == val,
{
    let row: &mut Vec<i32> = &mut g[r];
    row[c] = val;
    proof {
        assert forall|rr: int| 0 <= rr < old(g)@.len() implies #[trigger] gv(g@)[rr].len() == gv(
            old(g)@)[rr].len() by {
            assert(gv(g@)[rr] == g@[rr]@);
            assert(gv(old(g)@)[rr] == old(g)@[rr]@);
        }
        assert forall|rr: int, cc: int|
            0 <= rr < old(g)@.len() && 0 <= cc < gv(old(g)@)[rr].len() && !(rr == r && cc
                == c) implies #[trigger] gv(g@)[rr][cc] == gv(old(g)@)[rr][cc] by {
            assert(gv(g@)[rr] == g@[rr]@);
            assert(gv(old(g)@)[rr] == old(g)@[rr]@);
        }
        assert(gv(g@)[r as int] == g@[r as int]@);
    }
}

/// One match's authoritative state.
pub struct Game {
    /// Cell values in [0, 9]; 0 means empty.
    pub board: Vec<Vec<i32>>,
    /// Ownership marks: 0 unclaimed, +1 ours, -1 the opponent's.
    pub territory: Vec<Vec<i32>>,
    /// Whether this side moves first.
    pub first: bool,
    /// Whether the last confirmed move was a pass.
    pub passed: bool,
    /// Number of confirmed non-pass moves since the match began.
    pub turn_counter: usize,
}

impl Game {
    /// View of the board grid.
    pub open spec fn bv(&self) -> Seq<Seq<i32>> {
        gv(self.board@)
    }

    /// View of the territory grid.
    pub open spec fn tv(&self) -> Seq<Seq<i32>> {
        gv(self.territory@)
    }

    /// Both grids are well-formed.
    pub open spec fn wf(&self) -> bool {
        board_wf(self.bv()) && terr_wf(self.tv())
    }

    /// Creates the state for a new match from an initial board snapshot:
    /// the territory map starts all zero and the turn counter at zero.
    pub fn new(board: Vec<Vec<i32>>, first: bool) -> (g: Game)
        requires
            board_wf(gv(board@)),
        ensures
            g.wf(),
            g.bv() == gv(board@),
            forall|r: int, c: int| 0 <= r < ROWS && 0 <= c < COLS ==> #[trigger] g.tv()[r][c] == 0,
            g.first == first,
            !g.passed,
            g.turn_counter == 0,
    {
        let mut territory: Vec<Vec<i32>> = Vec::new();
        let mut r: usize = 0;
        while r < ROWS
            invariant
                r <= ROWS,
                territory@.len() == r,
                forall|rr: int| 0 <= rr < r ==> #[trigger] territory@[rr]@.len() == COLS,
                forall|rr: int, cc: int|
                    0 <= rr < r && 0 <= cc < COLS ==> #[trigger] territory@[rr]@[cc] == 0,
            decreases ROWS - r,
        {
            let mut row: Vec<i32> = Vec::new();
            let mut c: usize = 0;
            while c < COLS
                invariant
                    c <= COLS,
                    row@.len() == c,
                    forall|cc: int| 0 <= cc < c ==> #[trigger] row@[cc] == 0,
                decreases COLS - c,
            {
                row.push(0);
                c += 1;
            }
            territory.push(row);
            r += 1;
        }
        let g = Game { board, territory, first, passed: false, turn_counter: 0 };
        g
    }

    /// Decides whether the rectangle is a legal move on the current board:
    /// its nonzero cells sum to exactly 10 and each of its four border lines
    /// holds a nonzero cell. The scan stops as soon as the running sum
    /// exceeds 10.
    pub fn is_valid(&self, r1: usize, c1: usize, r2: usize, c2: usize) -> (res: bool)
        requires
            self.wf(),
            r1 <= r2 < ROWS,
            c1 <= c2 < COLS,
        ensures
            res == legal(self.bv(), r1 as int, c1 as int, r2 as int, c2 as int),
    {
        let ghost g = self.bv();
        proof {
            assert(rect_sum(g, r1 as int, c1 as int, r1 - 1, c2 as int) == 0);
        }
        let mut sums: i32 = 0;
        let mut r = r1;
        while r <= r2
            invariant
                self.wf(),
                g == self.bv(),
                r1 <= r <= r2 + 1,
                r2 < ROWS,
                c1 <= c2 < COLS,
                0 <= sums <= 10,
                sums == rect_sum(g, r1 as int, c1 as int, r - 1, c2 as int),
            decreases r2 + 1 - r,
        {
            proof {
                assert(row_sum(g[r as int], c1 as int, c1 - 1) == 0);
            }
            let mut c = c1;
            while c <= c2
                invariant
                    self.wf(),
                    g == self.bv(),
                    r1 <= r <= r2,
                    r2 < ROWS,
                    c1 <= c <= c2 + 1,
                    c2 < COLS,
                    0 <= sums <= 10,
                    sums == rect_sum(g, r1 as int, c1 as int, r - 1, c2 as int)
                        + row_sum(g[r as int], c1 as int, c - 1),
                decreases c2 + 1 - c,
            {
                proof {
                    assert(self.board@.len() == ROWS);
                    assert(g[r as int] == self.board@[r as int]@);
                    assert(g[r as int].len() == COLS);
                    lemma_row_sum_split(g[r as int], c1 as int, c as int, c as int);
                    assert(row_sum(g[r as int], c as int, c as int) == g[r as int][c as int]
                        + row_sum(g[r as int], c + 1, c as int));
                    assert(row_sum(g[r as int], c + 1, c as int) == 0);
                }
                let val = self.board[r][c];
                if val != 0 {
                    sums += val;
                    if sums > 10 {
                        proof {
                            lemma_rect_sum_split(g, r1 as int, r as int, r2 as int, c1 as int,
                                c2 as int);
                            assert(rect_sum(g, r as int, c1 as int, r2 as int, c2 as int)
                                == row_sum(g[r as int], c1 as int, c2 as int)
                                + rect_sum(g, r + 1, c1 as int, r2 as int, c2 as int));
                            lemma_row_sum_split(g[r as int], c1 as int, c + 1, c2 as int);
                            assert forall|rr: int, cc: int|
                                r + 1 <= rr <= r2 && c1 <= cc <= c2 implies #[trigger] g[rr][cc]
                                >= 0 by {
                                assert(0 <= g[rr][cc] <= 9);
                            }
                            lemma_rect_sum_nonneg(g, r + 1, c1 as int, r2 as int, c2 as int);
                            assert forall|cc: int| c + 1 <= cc <= c2 implies #[trigger] g[
                                r as int][cc] >= 0 by {
                                assert(0 <= g[r as int][cc] <= 9);
                            }
                            crate::grid::lemma_row_sum_nonneg(g[r as int], c + 1, c2 as int);
                            assert(rect_sum(g, r1 as int, c1 as int, r2 as int, c2 as int) > 10);
                        }
                        return false;
                    }
                }
                c += 1;
            }
            proof {
                lemma_rect_sum_split(g, r1 as int, r as int, r as int, c1 as int, c2 as int);
                assert(rect_sum(g, r as int, c1 as int, r as int, c2 as int) == row_sum(
                    g[r as int], c1 as int, c2 as int) + rect_sum(g, r + 1, c1 as int, r as int,
                    c2 as int));
                assert(rect_sum(g, r + 1, c1 as int, r as int, c2 as int) == 0);
            }
            r += 1;
        }
        if sums != 10 {
            return false;
        }
        let top = self.row_seg_has_nz(r1, c1, c2);
        let bottom = self.row_seg_has_nz(r2, c1, c2);
        let left = self.col_seg_has_nz(c1, r1, r2);
        let right = self.col_seg_has_nz(c2, r1, r2);
        top && bottom && left && right
    }

    /// Whether row `r` holds a nonzero cell between columns `c1` and `c2`.
    fn row_seg_has_nz(&self, r: usize, c1: usize, c2: usize) -> (res: bool)
        requires
            self.wf(),
            r < ROWS,
            c1 <= c2 < COLS,
        ensures
            res == row_has_nz(self.bv(), r as int, c1 as int, c2 as int),
    {
        let mut c = c1;
        while c <= c2
            invariant
                self.wf(),
                r < ROWS,
                c1 <= c <= c2 + 1,
                c2 < COLS,
                forall|cc: int| c1 <= cc < c ==> #[trigger] self.bv()[r as int][cc] == 0,
            decreases c2 + 1 - c,
        {
            proof {
                assert(self.board@.len() == ROWS);
                assert(self.bv()[r as int] == self.board@[r as int]@);
                assert(self.bv()[r as int].len() == COLS);
            }
            if self.board[r][c] != 0 {
                proof {
                    assert(self.bv()[r as int][c as int] != 0);
                }
                return true;
            }
            c += 1;
        }
        proof {
            assert(!row_has_nz(self.bv(), r as int, c1 as int, c2 as int));
        }
        false
    }

    /// Whether column `c` holds a nonzero cell between rows `r1` and `r2`.
    fn col_seg_has_nz(&self, c: usize, r1: usize, r2: usize) -> (res: bool)
        requires
            self.wf(),
            c < COLS,
            r1 <= r2 < ROWS,
        ensures
            res == col_has_nz(self.bv(), c as int, r1 as int, r2 as int),
    {
        let mut r = r1;
        while r <= r2
            invariant
                self.wf(),
                c < COLS,
                r1 <= r <= r2 + 1,
                r2 < ROWS,
                forall|rr: int| r1 <= rr < r ==> #[trigger] self.bv()[rr][c as int] == 0,
            decreases r2 + 1 - r,
        {
            proof {
                assert(self.board@.len() == ROWS);
                assert(self.bv()[r as int] == self.board@[r as int]@);
                assert(self.bv()[r as int].len() == COLS);
            }
            if self.board[r][c] != 0 {
                proof {
                    assert(self.bv()[r as int][c as int] != 0);
                }
                return true;
            }
            r += 1;
        }
        proof {
            assert(!col_has_nz(self.bv(), c as int, r1 as int, r2 as int));
        }
        false
    }

    /// Applies a move: zeroes every covered board cell and stamps every
    /// covered territory cell with the mover's color.
    pub fn make_move(&mut self, r1: usize, c1: usize, r2: usize, c2: usize, color: i32)
        requires
            old(self).wf(),
            r1 <= r2 < ROWS,
            c1 <= c2 < COLS,
            color == 1 || color == -1,
        ensures
            final(self).wf(),
            final(self).bv() == overwrite_rect(old(self).bv(), r1 as int, c1 as int, r2 as int,
                c2 as int, 0),
            final(self).tv() == overwrite_rect(old(self).tv(), r1 as int, c1 as int, r2 as int,
                c2 as int, color),
            final(self).first == old(self).first,
            final(self).passed == old(self).passed,
            final(self).turn_counter == old(self).turn_counter,
    {
        let ghost b0 = old(self).bv();
        let ghost t0 = old(self).tv();
        proof {
            assert(b0.len() == ROWS && t0.len() == ROWS);
        }
        let mut r = r1;
        while r <= r2
            invariant
                r1 <= r <= r2 + 1,
                r2 < ROWS,
                c1 <= c2 < COLS,
                b0.len() == ROWS,
                t0.len() == ROWS,
                forall|rr: int| 0 <= rr < ROWS ==> #[trigger] b0[rr].len() == COLS,
                forall|rr: int| 0 <= rr < ROWS ==> #[trigger] t0[rr].len() == COLS,
                self.board@.len() == ROWS,
                self.territory@.len() == ROWS,
                forall|rr: int| 0 <= rr < ROWS ==> #[trigger] self.bv()[rr].len() == COLS,
                forall|rr: int| 0 <= rr < ROWS ==> #[trigger] self.tv()[rr].len() == COLS,
                forall|rr: int, cc: int|
                    0 <= rr < ROWS && 0 <= cc < COLS && !(r1 <= rr < r && c1 <= cc <= c2)
                        ==> #[trigger] self.bv()[rr][cc] == b0[rr][cc],
                forall|rr: int, cc: int|
                    0 <= rr < ROWS && 0 <= cc < COLS && !(r1 <= rr < r && c1 <= cc <= c2)
                        ==> #[trigger] self.tv()[rr][cc] == t0[rr][cc],
                forall|rr: int, cc: int|
                    r1 <= rr < r && c1 <= cc <= c2 ==> #[trigger] self.bv()[rr][cc] == 0,
                forall|rr: int, cc: int|
                    r1 <= rr < r && c1 <= cc <= c2 ==> #[trigger] self.tv()[rr][cc] == color,
                self.first == old(self).first,
                self.passed == old(self).passed,
                self.turn_counter == old(self).turn_counter,
            decreases r2 + 1 - r,
        {
            let mut c = c1;
            while c <= c2
                invariant
                    r1 <= r <= r2,
                    r2 < ROWS,
                    c1 <= c <= c2 + 1,
                    c2 < COLS,
                    b0.len() == ROWS,
                    t0.len() == ROWS,
                    forall|rr: int| 0 <= rr < ROWS ==> #[trigger] b0[rr].len() == COLS,
                    forall|rr: int| 0 <= rr < ROWS ==> #[trigger] t0[rr].len() == COLS,
                    self.board@.len() == ROWS,
                    self.territory@.len() == ROWS,
                    forall|rr: int| 0 <= rr < ROWS ==> #[trigger] self.bv()[rr].len() == COLS,
                    forall|rr: int| 0 <= rr < ROWS ==> #[trigger] self.tv()[rr].len() == COLS,
                    forall|rr: int, cc: int|
                        0 <= rr < ROWS && 0 <= cc < COLS && !(r1 <= rr < r && c1 <= cc <= c2)
                            && !(rr == r && c1 <= cc < c) ==> #[trigger] self.bv()[rr][cc]
                            == b0[rr][cc],
                    forall|rr: int, cc: int|
                        0 <= rr < ROWS && 0 <= cc < COLS && !(r1 <= rr < r && c1 <= cc <= c2)
                            && !(rr == r && c1 <= cc < c) ==> #[trigger] self.tv()[rr][cc]
                            == t0[rr][cc],
                    forall|rr: int, cc: int|
                        (r1 <= rr < r && c1 <= cc <= c2) || (rr == r && c1 <= cc < c)
                            ==> #[trigger] self.bv()[rr][cc] == 0,
                    forall|rr: int, cc: int|
                        (r1 <= rr < r && c1 <= cc <= c2) || (rr == r && c1 <= cc < c)
                            ==> #[trigger] self.tv()[rr][cc] == color,
                    self.first == old(self).first,
                    self.passed == old(self).passed,
                    self.turn_counter == old(self).turn_counter,
                decreases c2 + 1 - c,
            {
                proof {
                    assert(self.board@[r as int]@ == self.bv()[r as int]);
                    assert(self.territory@[r as int]@ == self.tv()[r as int]);
                }
                set_cell(&mut self.board, r, c, 0);
                set_cell(&mut self.territory, r, c, color);
                c += 1;
            }
            r += 1;
        }
        proof {
            assert(self.bv() =~~= overwrite_rect(b0, r1 as int, c1 as int, r2 as int, c2 as int,
                0));
            assert(self.tv() =~~= overwrite_rect(t0, r1 as int, c1 as int, r2 as int, c2 as int,
                color));
        }
    }

    /// Restores both grids from full snapshots taken before a speculative
    /// application: the grids after the call equal the snapshots exactly.
    pub fn restore(&mut self, board: Vec<Vec<i32>>, territory: Vec<Vec<i32>>)
        ensures
            final(self).bv() == gv(board@),
            final(self).tv() == gv(territory@),
            final(self).first == old(self).first,
            final(self).passed == old(self).passed,
            final(self).turn_counter == old(self).turn_counter,
    {
        self.board = board;
        self.territory = territory;
    }

    /// The static evaluation: the sum of all territory marks, positive for
    /// cells claimed by this side.
    pub fn calculate_board_value(&self) -> (total: i32)
        requires
            self.wf(),
        ensures
            total == eval(self.tv()),
            -((ROWS * COLS) as i32) <= total <= (ROWS * COLS) as i32,
    {
        let ghost t = self.tv();
        proof {
            lemma_eval_bounds(t);
        }
        let mut total: i32 = 0;
        let mut r: usize = 0;
        while r < ROWS
            invariant
                self.wf(),
                t == self.tv(),
                r <= ROWS,
                total + grid_total(t, r as int) == eval(t),
                -(r as int) * (COLS as int) <= total <= (r as int) * (COLS as int),
            decreases ROWS - r,
        {
            let mut c: usize = 0;
            let mut rowtot: i32 = 0;
            proof {
                assert(row_sum(t[r as int], 0, -1) == 0);
            }
            while c < COLS
                invariant
                    self.wf(),
                    t == self.tv(),
                    r < ROWS,
                    c <= COLS,
                    rowtot == row_sum(t[r as int], 0, c - 1),
                    -(COLS as int) <= rowtot <= COLS as int,
                decreases COLS - c,
            {
                proof {
                    assert(self.territory@.len() == ROWS);
                    assert(t[r as int] == self.territory@[r as int]@);
                    assert(t[r as int].len() == COLS);
                    lemma_row_sum_split(t[r as int], 0, c as int, c as int);
                    assert(row_sum(t[r as int], c as int, c as int) == t[r as int][c as int]
                        + row_sum(t[r as int], c + 1, c as int));
                    assert(row_sum(t[r as int], c + 1, c as int) == 0);
                    assert forall|cc: int| 0 <= cc <= c implies -1 <= #[trigger] t[r as int][cc]
                        <= 1 by {
                        assert(-1 <= t[r as int][cc] <= 1);
                    }
                    lemma_row_sum_bounds(t[r as int], 0, c as int, -1, 1);
                }
                rowtot += self.territory[r][c];
                c += 1;
            }
            proof {
                assert(grid_total(t, r as int) == row_sum(t[r as int], 0, COLS - 1) + grid_total(
                    t, r + 1));
            }
            total += rowtot;
            r += 1;
        }
        total
    }

    /// Records a confirmed move: a pass only marks the pass flag; a
    /// rectangle is applied with this side's or the opponent's color and
    /// advances the turn counter.
    pub fn update_move(&mut self, action: Option<Rect>, is_my_move: bool)
        requires
            old(self).wf(),
            match action {
                Some(m) => rect_r1(m) <= rect_r2(m) < ROWS && rect_c1(m) <= rect_c2(m) < COLS
                    && old(self).turn_counter < usize::MAX,
                None => true,
            },
        ensures
            final(self).wf(),
            final(self).first == old(self).first,
            match action {
                Some(m) => {
                    &&& final(self).bv() == overwrite_rect(old(self).bv(), rect_r1(m), rect_c1(m),
                        rect_r2(m), rect_c2(m), 0)
                    &&& final(self).tv() == overwrite_rect(old(self).tv(), rect_r1(m), rect_c1(m),
                        rect_r2(m), rect_c2(m), if is_my_move { 1i32 } else { -1i32 })
                    &&& !final(self).passed
                    &&& final(self).turn_counter == old(self).turn_counter + 1
                },
                None => {
                    &&& final(self).bv() == old(self).bv()
                    &&& final(self).tv() == old(self).tv()
                    &&& final(self).passed
                    &&& final(self).turn_counter == old(self).turn_counter
                },
            },
    {
        match action {
            None => {
                self.passed = true;
            },
            Some((r1, c1, r2, c2)) => {
                let color: i32 = if is_my_move {
                    1
                } else {
                    -1
                };
                self.make_move(r1, c1, r2, c2, color);
                self.passed = false;
                self.turn_counter += 1;
            },
        }
    }

    /// Records the opponent's reported action (a rectangle or a pass).
    pub fn update_opponent_action(&mut self, action: Option<Rect>, _time: i32)
        requires
            old(self).wf(),
            match action {
                Some(m) => rect_r1(m) <= rect_r2(m) < ROWS && rect_c1(m) <= rect_c2(m) < COLS
                    && old(self).turn_counter < usize::MAX,
                None => true,
            },
        ensures
            final(self).wf(),
            final(self).first == old(self).first,
            match action {
                Some(m) => {
                    &&& final(self).bv() == overwrite_rect(old(self).bv(), rect_r1(m), rect_c1(m),
                        rect_r2(m), rect_c2(m), 0)
                    &&& final(self).tv() == overwrite_rect(old(self).tv(), rect_r1(m), rect_c1(m),
                        rect_r2(m), rect_c2(m), -1i32)
                    &&& !final(self).passed
                    &&& final(self).turn_counter == old(self).turn_counter + 1
                },
                None => {
                    &&& final(self).bv() == old(self).bv()
                    &&& final(self).tv() == old(self).tv()
                    &&& final(self).passed
                    &&& final(self).turn_counter == old(self).turn_counter
                },
            },
    {
        self.update_move(action, false);
    }
}

/// Copies a grid cell by cell; the copy has the same view.
pub fn clone_grid(g: &Vec<Vec<i32>>) -> (out: Vec<Vec<i32>>)
    ensures
        gv(out@) == gv(g@),
{
    let mut out: Vec<Vec<i32>> = Vec::new();
    let mut r: usize = 0;
    while r < g.len()
        invariant
            r <= g@.len(),
            out@.len() == r,
            forall|rr: int| 0 <= rr < r ==> #[trigger] out@[rr]@ == g@[rr]@,
        decreases g@.len() - r,
    {
        let mut row: Vec<i32> = Vec::new();
        let mut c: usize = 0;
        while c < g[r].len()
            invariant
                r < g@.len(),
                c <= g@[r as int]@.len(),
                row@.len() == c,
                forall|cc: int| 0 <= cc < c ==> #[trigger] row@[cc] == g@[r as int]@[cc],
            decreases g@[r as int]@.len() - c,
        {
            row.push(g[r][c]);
            c += 1;
        }
        proof {
            assert(row@ =~= g@[r as int]@);
        }
        out.push(row);
        r += 1;
    }
    proof {
        assert(gv(out@) =~~= gv(g@));
    }
    out
}

} // verus!
