//! Mathematical model of the two grids: cell values and territory marks.
//!
//! A grid is viewed as a `Seq<Seq<i32>>` of fixed dimensions. This module
//! defines the sums, border predicates, the legality of a rectangle, the
//! effect of applying a move, and the static evaluation, together with the
//! lemmas the executable code needs.

use vstd::prelude::*;

verus! {

/// Number of rows of the board.
pub const ROWS: usize = 10;
/// Number of columns of the board.
pub const COLS: usize = 17;

/// View of a grid held as a vector of rows.
pub open spec fn gv(v: Seq<Vec<i32>>) -> Seq<Seq<i32>> {
    v.map_values(|row: Vec<i32>| row@)
}

/// The grid has exactly `ROWS` rows of `COLS` cells each.
pub open spec fn grid_dims(g: Seq<Seq<i32>>) -> bool {
    &&& g.len() == ROWS
    &&& forall|r: int| 0 <= r < g.len() ==> #[trigger] g[r].len() == COLS
}

/// A well-formed board: correct dimensions, every cell a digit value.
pub open spec fn board_wf(g: Seq<Seq<i32>>) -> bool {
    &&& grid_dims(g)
    &&& forall|r: int, c: int|
        0 <= r < ROWS && 0 <= c < COLS ==> 0 <= #[trigger] g[r][c] <= 9
}

/// A well-formed territory map: correct dimensions, marks in {-1, 0, 1}.
pub open spec fn terr_wf(g: Seq<Seq<i32>>) -> bool {
    &&& grid_dims(g)
    &&& forall|r: int, c: int|
        0 <= r < ROWS && 0 <= c < COLS ==> -1 <= #[trigger] g[r][c] <= 1
}

/// Sum of the cells `row[c1..=c2]`.
pub open spec fn row_sum(row: Seq<i32>, c1: int, c2: int) -> int
    decreases c2 + 1 - c1,
{
    if c1 > c2 {
        0
    } else {
        row[c1] + row_sum(row, c1 + 1, c2)
    }
}

/// Sum of the cells of `g` inside the closed rectangle (r1,c1)-(r2,c2).
pub open spec fn rect_sum(g: Seq<Seq<i32>>, r1: int, c1: int, r2: int, c2: int) -> int
    decreases r2 + 1 - r1,
{
    if r1 > r2 {
        0
    } else {
        row_sum(g[r1], c1, c2) + rect_sum(g, r1 + 1, c1, r2, c2)
    }
}

/// Some cell of row `r` between columns `c1` and `c2` is nonzero.
pub open spec fn row_has_nz(g: Seq<Seq<i32>>, r: int, c1: int, c2: int) -> bool {
    exists|c: int| c1 <= c <= c2 && #[trigger] g[r][c] != 0
}

/// Some cell of column `c` between rows `r1` and `r2` is nonzero.
pub open spec fn col_has_nz(g: Seq<Seq<i32>>, c: int, r1: int, r2: int) -> bool {
    exists|r: int| r1 <= r <= r2 && #[trigger] g[r][c] != 0
}

/// The rectangle lies inside the grid, with its corners ordered.
pub open spec fn rect_in_bounds(r1: int, c1: int, r2: int, c2: int) -> bool {
    0 <= r1 <= r2 < ROWS && 0 <= c1 <= c2 < COLS
}

/// A rectangle is a legal move: in bounds, its cells sum to exactly 10,
/// and each of its four border lines holds a nonzero cell.
pub open spec fn legal(g: Seq<Seq<i32>>, r1: int, c1: int, r2: int, c2: int) -> bool {
    &&& rect_in_bounds(r1, c1, r2, c2)
    &&& rect_sum(g, r1, c1, r2, c2) == 10
    &&& row_has_nz(g, r1, c1, c2)
    &&& row_has_nz(g, r2, c1, c2)
    &&& col_has_nz(g, c1, r1, r2)
    &&& col_has_nz(g, c2, r1, r2)
}

/// The grid after writing `val` into every cell of the closed rectangle.
pub open spec fn overwrite_rect(
    g: Seq<Seq<i32>>,
    r1: int,
    c1: int,
    r2: int,
    c2: int,
    val: i32,
) -> Seq<Seq<i32>> {
    Seq::new(
        g.len(),
        |r: int|
            Seq::new(
                g[r].len(),
                |c: int|
                    if r1 <= r <= r2 && c1 <= c <= c2 {
                        val
                    } else {
                        g[r][c]
                    },
            ),
    )
}

/// Sum of all territory marks from row `r` down.
pub open spec fn grid_total(g: Seq<Seq<i32>>, r: int) -> int
    decreases g.len() - r,
{
    if r < 0 || r >= g.len() {
        0
    } else {
        row_sum(g[r], 0, COLS - 1) + grid_total(g, r + 1)
    }
}

/// Static evaluation of a territory map: the sum of all its marks.
pub open spec fn eval(t: Seq<Seq<i32>>) -> int {
    grid_total(t, 0)
}

/// Splitting a row segment sum at `cm`.
pub proof fn lemma_row_sum_split(row: Seq<i32>, c1: int, cm: int, c2: int)
    requires
        c1 <= cm <= c2 + 1,
    ensures
        row_sum(row, c1, c2) == row_sum(row, c1, cm - 1) + row_sum(row, cm, c2),
    decreases cm - c1,
{
    if c1 < cm {
        lemma_row_sum_split(row, c1 + 1, cm, c2);
    }
}

/// A segment of nonnegative cells has a nonnegative sum.
pub proof fn lemma_row_sum_nonneg(row: Seq<i32>, c1: int, c2: int)
    requires
        forall|c: int| c1 <= c <= c2 ==> #[trigger] row[c] >= 0,
    ensures
        row_sum(row, c1, c2) >= 0,
    decreases c2 + 1 - c1,
{
    if c1 <= c2 {
        lemma_row_sum_nonneg(row, c1 + 1, c2);
    }
}

/// A segment of cells in [lo, hi] has a sum within length-scaled bounds.
pub proof fn lemma_row_sum_bounds(row: Seq<i32>, c1: int, c2: int, lo: int, hi: int)
    requires
        forall|c: int| c1 <= c <= c2 ==> lo <= #[trigger] row[c] <= hi,
    ensures
        c1 <= c2 + 1 ==> (c2 + 1 - c1) * lo <= row_sum(row, c1, c2) <= (c2 + 1 - c1) * hi,
    decreases c2 + 1 - c1,
{
    if c1 <= c2 {
        lemma_row_sum_bounds(row, c1 + 1, c2, lo, hi);
        assert((c2 + 1 - c1) * lo == lo + (c2 - c1) * lo) by (nonlinear_arith);
        assert((c2 + 1 - c1) * hi == hi + (c2 - c1) * hi) by (nonlinear_arith);
        assert(lo <= row[c1] <= hi);
    } else if c1 == c2 + 1 {
        assert((c2 + 1 - c1) * lo == 0) by (nonlinear_arith)
            requires c2 + 1 - c1 == 0;
        assert((c2 + 1 - c1) * hi == 0) by (nonlinear_arith)
            requires c2 + 1 - c1 == 0;
    }
}

/// Splitting a rectangle sum at row `rm`.
pub proof fn lemma_rect_sum_split(g: Seq<Seq<i32>>, r1: int, rm: int, r2: int, c1: int, c2: int)
    requires
        r1 <= rm <= r2 + 1,
    ensures
        rect_sum(g, r1, c1, r2, c2) == rect_sum(g, r1, c1, rm - 1, c2) + rect_sum(g, rm, c1, r2, c2),
    decreases rm - r1,
{
    if r1 < rm {
        lemma_rect_sum_split(g, r1 + 1, rm, r2, c1, c2);
    }
}

/// A rectangle of nonnegative cells has a nonnegative sum.
pub proof fn lemma_rect_sum_nonneg(g: Seq<Seq<i32>>, r1: int, c1: int, r2: int, c2: int)
    requires
        forall|r: int, c: int|
            r1 <= r <= r2 && c1 <= c <= c2 ==> #[trigger] g[r][c] >= 0,
    ensures
        rect_sum(g, r1, c1, r2, c2) >= 0,
    decreases r2 + 1 - r1,
{
    if r1 <= r2 {
        assert forall|c: int| c1 <= c <= c2 implies #[trigger] g[r1][c] >= 0 by {
            assert(g[r1][c] >= 0);
        }
        lemma_row_sum_nonneg(g[r1], c1, c2);
        lemma_rect_sum_nonneg(g, r1 + 1, c1, r2, c2);
    }
}

/// The total of a well-formed territory map is bounded by the cell count.
pub proof fn lemma_grid_total_bounds(g: Seq<Seq<i32>>, r: int)
    requires
        terr_wf(g),
        0 <= r <= g.len(),
    ensures
        -(g.len() - r) * (COLS as int) <= grid_total(g, r) <= (g.len() - r) * (COLS as int),
    decreases g.len() - r,
{
    if r < g.len() {
        assert forall|c: int| 0 <= c <= COLS - 1 implies -1 <= #[trigger] g[r][c] <= 1 by {
            assert(-1 <= g[r][c] <= 1);
        }
        lemma_row_sum_bounds(g[r], 0, COLS - 1, -1, 1);
        lemma_grid_total_bounds(g, r + 1);
        assert((g.len() - r) * (COLS as int) == (COLS as int) + (g.len() - r - 1) * (COLS as int))
            by (nonlinear_arith);
    }
}

/// The evaluation of a well-formed territory map fits in the cell count.
pub proof fn lemma_eval_bounds(t: Seq<Seq<i32>>)
    requires
        terr_wf(t),
    ensures
        -((ROWS * COLS) as int) <= eval(t) <= (ROWS * COLS) as int,
{
    lemma_grid_total_bounds(t, 0);
}

/// The grid with the cells of the closed rectangle taken from `src` and
/// every other cell kept from `g`.
pub open spec fn patch_rect(
    g: Seq<Seq<i32>>,
    src: Seq<Seq<i32>>,
    r1: int,
    c1: int,
    r2: int,
    c2: int,
) -> Seq<Seq<i32>> {
    Seq::new(
        g.len(),
        |r: int|
            Seq::new(
                g[r].len(),
                |c: int|
                    if r1 <= r <= r2 && c1 <= c <= c2 {
                        src[r][c]
                    } else {
                        g[r][c]
                    },
            ),
    )
}

/// Applying a move and then undoing it reproduces the original grid
/// exactly, cell for cell: overwriting a rectangle is undone by writing
/// back the covered cells' prior values, for every grid, rectangle and
/// written value. The executable undo restores whole-grid snapshots,
/// the special case that patches every cell from the snapshot.
pub proof fn lemma_overwrite_undo(
    g: Seq<Seq<i32>>,
    r1: int,
    c1: int,
    r2: int,
    c2: int,
    val: i32,
)
    requires
        grid_dims(g),
    ensures
        patch_rect(overwrite_rect(g, r1, c1, r2, c2, val), g, r1, c1, r2, c2) == g,
{
    assert(patch_rect(overwrite_rect(g, r1, c1, r2, c2, val), g, r1, c1, r2, c2) =~~= g);
}

} // verus!
