//! Building the initial board from the protocol's row tokens.
//!
//! Each row arrives as the ASCII bytes of a string of digit characters.
//! A malformed snapshot — wrong row count, a row of the wrong width, or
//! a byte that is no digit — is rejected.

use vstd::prelude::*;

use crate::grid::COLS;
use crate::grid::ROWS;
use crate::grid::board_wf;
use crate::grid::gv;

verus! {

/// The byte is an ASCII digit.
pub open spec fn digit_byte(x: u8) -> bool {
    48 <= x <= 57
}

/// The row tokens form a well-shaped board snapshot: exactly `ROWS` rows
/// of exactly `COLS` ASCII digits each.
pub open spec fn rows_ok(rows: Seq<Vec<u8>>) -> bool {
    &&& rows.len() == ROWS
    &&& forall|r: int| 0 <= r < ROWS ==> #[trigger] rows[r]@.len() == COLS
    &&& forall|r: int, c: int|
        0 <= r < ROWS && 0 <= c < COLS ==> digit_byte(#[trigger] rows[r]@[c])
}

/// Builds the board from the row tokens: `Some` exactly when the
/// snapshot is well-shaped, and then each cell is its digit's value.
pub fn parse_board_rows(rows: &Vec<Vec<u8>>) -> (res: Option<Vec<Vec<i32>>>)
    ensures
        res is Some <==> rows_ok(rows@),
        (match res {
            Some(b) => {
                &&& board_wf(gv(b@))
                &&& forall|r: int, c: int|
                    0 <= r < ROWS && 0 <= c < COLS ==> #[trigger] gv(b@)[r][c] == rows@[r]@[c]
                        - 48
            },
            None => true,
        }),
{
    if rows.len() != ROWS {
        return None;
    }
    let mut board: Vec<Vec<i32>> = Vec::new();
    let mut r: usize = 0;
    while r < ROWS
        invariant
            rows@.len() == ROWS,
            r <= ROWS,
            board@.len() == r,
            forall|rr: int| 0 <= rr < r ==> #[trigger] rows@[rr]@.len() == COLS,
            forall|rr: int, cc: int|
                0 <= rr < r && 0 <= cc < COLS ==> digit_byte(#[trigger] rows@[rr]@[cc]),
            forall|rr: int| 0 <= rr < r ==> #[trigger] board@[rr]@.len() == COLS,
            forall|rr: int, cc: int|
                0 <= rr < r && 0 <= cc < COLS ==> #[trigger] board@[rr]@[cc] == rows@[rr]@[cc]
                    - 48,
        decreases ROWS - r,
    {
        if rows[r].len() != COLS {
            return None;
        }
        let mut row: Vec<i32> = Vec::new();
        let mut c: usize = 0;
        while c < COLS
            invariant
                rows@.len() == ROWS,
                r < ROWS,
                rows@[r as int]@.len() == COLS,
                c <= COLS,
                row@.len() == c,
                forall|cc: int|
                    0 <= cc < c ==> digit_byte(#[trigger] rows@[r as int]@[cc]),
                forall|cc: int|
                    0 <= cc < c ==> #[trigger] row@[cc] == rows@[r as int]@[cc] - 48,
            decreases COLS - c,
        {
            let x = rows[r][c];
            if x < 48 || x > 57 {
                return None;
            }
            row.push((x - 48) as i32);
            c += 1;
        }
        board.push(row);
        r += 1;
    }
    proof {
        assert forall|rr: int, cc: int|
            0 <= rr < ROWS && 0 <= cc < COLS implies 0 <= #[trigger] gv(board@)[rr][cc] <= 9 by {
            assert(gv(board@)[rr] == board@[rr]@);
            assert(digit_byte(rows@[rr]@[cc]));
        }
        assert forall|rr: int| 0 <= rr < ROWS implies #[trigger] gv(board@)[rr].len() == COLS by {
            assert(gv(board@)[rr] == board@[rr]@);
        }
        assert forall|rr: int, cc: int|
            0 <= rr < ROWS && 0 <= cc < COLS implies #[trigger] gv(board@)[rr][cc] == rows@[rr]@[
            cc] - 48 by {
            assert(gv(board@)[rr] == board@[rr]@);
        }
    }
    Some(board)
}

} // verus!
