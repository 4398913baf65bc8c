use mushroom_ai::game::Game;
use mushroom_ai::grid::COLS;
use mushroom_ai::grid::ROWS;
use mushroom_ai::parse::parse_board_rows;

fn row_bytes(s: &str) -> Vec<u8> {
    s.as_bytes().to_vec()
}

/// Rows of an all-zero board except `1234` at the start of row 0.
fn rows_with_one_rectangle() -> Vec<Vec<u8>> {
    let mut rows = Vec::new();
    rows.push(row_bytes("12340000000000000"));
    for _ in 1..ROWS {
        rows.push(row_bytes("00000000000000000"));
    }
    rows
}

#[test]
fn parse_accepts_a_digit_board() {
    let rows = rows_with_one_rectangle();
    let board = parse_board_rows(&rows).expect("well-shaped snapshot");
    assert_eq!(board.len(), ROWS);
    for row in &board {
        assert_eq!(row.len(), COLS);
    }
    assert_eq!(board[0][0], 1);
    assert_eq!(board[0][1], 2);
    assert_eq!(board[0][2], 3);
    assert_eq!(board[0][3], 4);
    assert_eq!(board[0][4], 0);
    assert_eq!(board[9][16], 0);
}

#[test]
fn parse_rejects_wrong_row_count() {
    let mut rows = rows_with_one_rectangle();
    rows.pop();
    assert!(parse_board_rows(&rows).is_none());
    rows.push(row_bytes("00000000000000000"));
    rows.push(row_bytes("00000000000000000"));
    assert!(parse_board_rows(&rows).is_none());
}

#[test]
fn parse_rejects_short_row() {
    let mut rows = rows_with_one_rectangle();
    rows[3] = row_bytes("0000");
    assert!(parse_board_rows(&rows).is_none());
}

#[test]
fn parse_rejects_non_digit() {
    let mut rows = rows_with_one_rectangle();
    rows[0] = row_bytes("12x40000000000000");
    assert!(parse_board_rows(&rows).is_none());
}

#[test]
fn init_then_time_round_trip() {
    // An initial snapshot holding a legal rectangle, then one decision:
    // the reported move must be a legal rectangle of the board the
    // snapshot encoded, and applying it must succeed.
    let board = parse_board_rows(&rows_with_one_rectangle()).expect("well-shaped snapshot");
    let mut g = Game::new(board, true);
    let mv = g.calculate_move(100, 100);
    let (r1, c1, r2, c2) = mv.expect("the snapshot holds a legal rectangle");
    assert!(g.is_valid(r1, c1, r2, c2));
    assert_eq!((r1, c1, r2, c2), (0, 0, 0, 3));
    g.update_move(mv, true);
    assert_eq!(g.turn_counter, 1);
}

#[test]
fn init_then_time_round_trip_pass() {
    let mut rows = rows_with_one_rectangle();
    // Break the only rectangle: now no selection sums to 10.
    rows[0] = row_bytes("12300000000000000");
    let board = parse_board_rows(&rows).expect("well-shaped snapshot");
    let mut g = Game::new(board, true);
    let mv = g.calculate_move(100, 100);
    assert_eq!(mv, None);
    g.update_move(mv, true);
    assert!(g.passed);
    assert_eq!(g.turn_counter, 0);
}
