use mushroom_ai::game::Game;
use mushroom_ai::game::clone_grid;
use mushroom_ai::grid::COLS;
use mushroom_ai::grid::ROWS;
use mushroom_ai::search::DEPTH;
use mushroom_ai::search::INF;
use mushroom_ai::search::TURN_CAP;

fn zero_board() -> Vec<Vec<i32>> {
    let mut b = Vec::new();
    for _ in 0..ROWS {
        b.push(vec![0i32; COLS]);
    }
    b
}

fn board_with(cells: &[(usize, usize, i32)]) -> Vec<Vec<i32>> {
    let mut b = zero_board();
    for &(r, c, v) in cells {
        b[r][c] = v;
    }
    b
}

/// Board with two disjoint legal rectangles and no other one:
/// (0,0)-(0,1) holding 5+5 and (5,8)-(5,11) holding 1+2+3+4.
fn two_rect_board() -> Vec<Vec<i32>> {
    board_with(&[(0, 0, 5), (0, 1, 5), (5, 8, 1), (5, 9, 2), (5, 10, 3), (5, 11, 4)])
}

#[test]
fn legality_row_sums() {
    let b = board_with(&[(0, 0, 1), (0, 1, 2), (0, 2, 3), (0, 3, 4)]);
    let g = Game::new(b, true);
    assert!(g.is_valid(0, 0, 0, 3));
    assert!(!g.is_valid(0, 0, 0, 2));
}

#[test]
fn empty_rectangle_is_illegal() {
    let b = board_with(&[(0, 0, 1), (0, 1, 2), (0, 2, 3), (0, 3, 4)]);
    let g = Game::new(b, true);
    assert!(!g.is_valid(5, 5, 6, 6));
    let all_zero = Game::new(zero_board(), true);
    assert!(!all_zero.is_valid(0, 0, 9, 16));
}

#[test]
fn border_lines_must_hold_a_nonzero_cell() {
    let b = board_with(&[(1, 1, 5), (1, 2, 5)]);
    let g = Game::new(b, true);
    assert!(g.is_valid(1, 1, 1, 2));
    // Same sum, but a border row or column of zeros makes it illegal.
    assert!(!g.is_valid(0, 1, 1, 2));
    assert!(!g.is_valid(1, 1, 2, 2));
    assert!(!g.is_valid(1, 0, 1, 2));
    assert!(!g.is_valid(1, 1, 1, 3));
}

#[test]
fn apply_undo_roundtrip() {
    let b = board_with(&[(2, 3, 4), (2, 4, 6), (7, 0, 9)]);
    let mut g = Game::new(b, true);
    g.update_move(Some((7, 0, 7, 0)), false);
    let board_snapshot = clone_grid(&g.board);
    let terr_snapshot = clone_grid(&g.territory);
    g.make_move(2, 3, 2, 4, 1);
    assert_eq!(g.board[2][3], 0);
    assert_eq!(g.board[2][4], 0);
    assert_eq!(g.territory[2][3], 1);
    assert_eq!(g.territory[2][4], 1);
    g.restore(clone_grid(&board_snapshot), clone_grid(&terr_snapshot));
    assert_eq!(g.board, board_snapshot);
    assert_eq!(g.territory, terr_snapshot);
    assert_eq!(g.board[2][3], 4);
    assert_eq!(g.board[2][4], 6);
    assert_eq!(g.territory[2][3], 0);
    assert_eq!(g.territory[7][0], -1);
}

#[test]
fn enumerate_moves_in_canonical_order() {
    let g = Game::new(two_rect_board(), true);
    let moves = g.enumerate_moves();
    assert_eq!(moves, vec![(0, 0, 0, 1), (5, 8, 5, 11)]);
}

#[test]
fn search_prefers_the_larger_claim() {
    // Taking the four-cell rectangle first leaves the opponent only the
    // two-cell one: territory ends 4 against 2, a score of +2. Taking
    // the two-cell one first ends 2 against 4. The search must report
    // the four-cell rectangle with score 2, the full-width optimum.
    let mut g = Game::new(two_rect_board(), true);
    let (score, mv) = g.simulate(-INF, INF, 0, 1);
    assert_eq!(score, 2);
    assert_eq!(mv, Some((5, 8, 5, 11)));
}

#[test]
fn search_restores_the_state_it_explored() {
    let mut g = Game::new(two_rect_board(), true);
    let board_before = clone_grid(&g.board);
    let terr_before = clone_grid(&g.territory);
    let _ = g.simulate(-INF, INF, 0, 1);
    assert_eq!(g.board, board_before);
    assert_eq!(g.territory, terr_before);
    assert_eq!(g.turn_counter, 0);
}

#[test]
fn search_is_deterministic() {
    let mut g1 = Game::new(two_rect_board(), true);
    let mut g2 = Game::new(two_rect_board(), true);
    let first = g1.simulate(-INF, INF, 0, 1);
    let second = g2.simulate(-INF, INF, 0, 1);
    assert_eq!(first, second);
    // The search restores its state, so repeating it on the same game
    // must also repeat the answer.
    let again = g1.simulate(-INF, INF, 0, 1);
    assert_eq!(first, again);
}

#[test]
fn clipped_windows_stay_on_their_side() {
    // The full-width value of this position is 2. A window whose lower
    // bound already exceeds it must fail low; one whose upper bound is
    // below it must fail high.
    let mut g = Game::new(two_rect_board(), true);
    let (low_score, _) = g.simulate(5, INF, 0, 1);
    assert!(low_score <= 5);
    let (high_score, _) = g.simulate(-INF, 1, 0, 1);
    assert!(high_score >= 1);
    // The exact value is reported from any window that contains it.
    let (exact_score, mv) = g.simulate(0, 3, 0, 1);
    assert_eq!(exact_score, 2);
    assert_eq!(mv, Some((5, 8, 5, 11)));
}

#[test]
fn pass_when_no_legal_move() {
    let mut g = Game::new(zero_board(), true);
    g.territory[0][0] = 1;
    g.territory[0][1] = 1;
    g.territory[3][3] = -1;
    let (score, mv) = g.simulate(-INF, INF, 0, 1);
    assert_eq!(score, 1);
    assert_eq!(mv, None);
    let (opp_score, opp_mv) = g.simulate(-INF, INF, 0, -1);
    assert_eq!(opp_score, -1);
    assert_eq!(opp_mv, None);
    assert_eq!(g.calculate_move(100, 100), None);
}

#[test]
fn horizon_and_turn_cap_stop_the_search() {
    let mut g = Game::new(two_rect_board(), true);
    g.territory[0][5] = 1;
    let (score, mv) = g.simulate(-INF, INF, DEPTH, 1);
    assert_eq!(score, 1);
    assert_eq!(mv, None);
    g.turn_counter = TURN_CAP;
    let (capped_score, capped_mv) = g.simulate(-INF, INF, 0, 1);
    assert_eq!(capped_score, 1);
    assert_eq!(capped_mv, None);
    assert_eq!(g.calculate_move(100, 100), None);
}

#[test]
fn evaluation_sums_territory_marks() {
    let mut g = Game::new(zero_board(), true);
    assert_eq!(g.calculate_board_value(), 0);
    g.territory[0][0] = 1;
    g.territory[4][9] = 1;
    g.territory[9][16] = 1;
    g.territory[2][2] = -1;
    assert_eq!(g.calculate_board_value(), 2);
}

#[test]
fn update_move_applies_and_counts() {
    let b = board_with(&[(1, 1, 5), (1, 2, 5)]);
    let mut g = Game::new(b, true);
    g.update_move(Some((1, 1, 1, 2)), true);
    assert_eq!(g.board[1][1], 0);
    assert_eq!(g.board[1][2], 0);
    assert_eq!(g.territory[1][1], 1);
    assert_eq!(g.territory[1][2], 1);
    assert!(!g.passed);
    assert_eq!(g.turn_counter, 1);
    g.update_move(None, true);
    assert!(g.passed);
    assert_eq!(g.turn_counter, 1);
}

#[test]
fn opponent_action_stamps_their_color() {
    let b = board_with(&[(1, 1, 5), (1, 2, 5)]);
    let mut g = Game::new(b, false);
    g.update_opponent_action(Some((1, 1, 1, 2)), 900);
    assert_eq!(g.board[1][1], 0);
    assert_eq!(g.territory[1][1], -1);
    assert_eq!(g.territory[1][2], -1);
    assert_eq!(g.turn_counter, 1);
    g.update_opponent_action(None, 900);
    assert!(g.passed);
}

#[test]
fn calculated_move_is_legal_and_applies() {
    let mut g = Game::new(two_rect_board(), true);
    let mv = g.calculate_move(1000, 1000);
    let (r1, c1, r2, c2) = mv.expect("a legal rectangle exists");
    assert!(g.is_valid(r1, c1, r2, c2));
    g.update_move(mv, true);
    for r in r1..=r2 {
        for c in c1..=c2 {
            assert_eq!(g.board[r][c], 0);
            assert_eq!(g.territory[r][c], 1);
        }
    }
    assert_eq!(g.turn_counter, 1);
}
