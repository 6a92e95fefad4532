use confour::board::{Board, Cell, Player, State, COLS, ROWS};
use confour::detect::{get_winner, sequences_all};
use confour::eval::minimax::{
    TranspositionEntry, TranspositionFlag, TranspositionTable, INF_SCORE,
};

fn red() -> Cell {
    Cell::Player { player: Player::Red }
}

fn yellow() -> Cell {
    Cell::Player { player: Player::Yellow }
}

/// A full board with no line of four: rows alternate between two
/// pair-patterns whose diagonals never line up four of a colour.
fn full_draw_board() -> State {
    let a = [red(), red(), yellow(), yellow(), red(), red(), yellow()];
    let b = [yellow(), yellow(), red(), red(), yellow(), yellow(), red()];
    let mut state = State::new();
    for row in 0..ROWS {
        let pattern = if row % 2 == 0 { a } else { b };
        for col in 0..COLS {
            state.data[row][col] = pattern[col];
        }
    }
    state
}

#[test]
fn test_column_fills_then_rejects() {
    let mut state = State::new();
    for i in 0..ROWS {
        assert!(state.is_valid(3), "drop {} into column 3 should be legal", i);
        let player = if i % 2 == 0 { Player::Red } else { Player::Yellow };
        state.drop(3, player);
    }
    assert!(!state.is_valid(3), "a column holding {} pieces must reject further drops", ROWS);
    for col in [0, 1, 2, 4, 5, 6] {
        assert!(state.is_valid(col), "other columns must stay open");
    }
}

#[test]
fn test_anti_diagonal_single_run() {
    let mut state = State::new();
    state.data[2][3] = red();
    state.data[3][2] = red();
    state.data[4][1] = red();
    state.data[5][0] = red();

    assert_eq!(get_winner(&state), Some(Player::Red));

    let seqs = sequences_all(&state, Player::Red);
    assert_eq!(seqs.len(), 1, "exactly one run expected");
    assert_eq!(seqs[0], vec![(2, 3), (3, 2), (4, 1), (5, 0)]);
    assert_eq!(seqs[0].len(), 4);
}

#[test]
fn test_evaluate_win_for_mover() {
    // four red pieces: even count, so Red (the winner) is about to move
    let mut state = State::new();
    state.data[2][0] = red();
    state.data[3][0] = red();
    state.data[4][0] = red();
    state.data[5][0] = red();
    assert_eq!(state.player(), Player::Red);
    assert_eq!(state.evaluate(), 500);
}

#[test]
fn test_evaluate_win_against_mover() {
    // four red pieces and one yellow: odd count, so Yellow moves while Red won
    let mut state = State::new();
    state.data[2][0] = red();
    state.data[3][0] = red();
    state.data[4][0] = red();
    state.data[5][0] = red();
    state.data[5][6] = yellow();
    assert_eq!(state.player(), Player::Yellow);
    assert_eq!(state.evaluate(), -500);
}

#[test]
fn test_evaluate_minimizer_win() {
    // four yellow pieces: even count, Red to move while Yellow won
    let mut state = State::new();
    state.data[5][0] = yellow();
    state.data[5][1] = yellow();
    state.data[5][2] = yellow();
    state.data[5][3] = yellow();
    assert_eq!(state.player(), Player::Red);
    assert_eq!(state.evaluate(), -500);

    // one more red piece: Yellow (the winner) is about to move
    state.data[4][6] = red();
    assert_eq!(state.player(), Player::Yellow);
    assert_eq!(state.evaluate(), 500);
}

#[test]
fn test_evaluate_draw_zero() {
    let state = full_draw_board();
    assert_eq!(get_winner(&state), None);
    assert!(state.is_full());
    assert_eq!(state.evaluate(), 0);
}

#[test]
fn test_evaluate_heuristic_value() {
    // three red pieces in the bottom-left corner: one run of length three,
    // weights 1 + 1 + 2 plus the streak bonus 5 * 2^3
    let mut state = State::new();
    state.data[5][0] = red();
    state.data[5][1] = red();
    state.data[5][2] = red();
    assert_eq!(state.evaluate(), 44);
}

#[test]
fn test_no_duplicate_runs() {
    // an L of red pieces: a vertical run, a horizontal run and a short
    // diagonal, each reported exactly once
    let mut state = State::new();
    state.data[3][0] = red();
    state.data[4][0] = red();
    state.data[5][0] = red();
    state.data[5][1] = red();
    state.data[5][2] = red();

    let seqs = sequences_all(&state, Player::Red);
    assert_eq!(seqs.len(), 3, "expected three distinct runs, got {:?}", seqs);
    assert_eq!(seqs[0], vec![(3, 0), (4, 0), (5, 0)]);
    assert_eq!(seqs[1], vec![(4, 0), (5, 1)]);
    assert_eq!(seqs[2], vec![(5, 0), (5, 1), (5, 2)]);
    for i in 0..seqs.len() {
        for j in (i + 1)..seqs.len() {
            assert_ne!(seqs[i], seqs[j]);
        }
    }
}

#[test]
fn test_is_terminal() {
    let state = State::new();
    assert!(!state.is_terminal());

    let mut won = State::new();
    won.data[5][0] = red();
    won.data[5][1] = red();
    won.data[5][2] = red();
    won.data[5][3] = red();
    assert!(won.is_terminal());

    assert!(full_draw_board().is_terminal());
}

#[test]
fn test_negamax_terminal_matches_evaluate() {
    let mut state = State::new();
    state.data[2][0] = red();
    state.data[3][0] = red();
    state.data[4][0] = red();
    state.data[5][0] = red();

    let mut tt = TranspositionTable::new();
    let score = state.negamax(3, &mut tt, -INF_SCORE, INF_SCORE);
    assert_eq!(score, state.evaluate());
    assert_eq!(score, 500);
}

#[test]
fn test_negamax_depth_zero_is_static() {
    let mut state = State::new();
    state.data[5][0] = red();
    state.data[5][1] = red();
    state.data[5][2] = red();

    let mut tt = TranspositionTable::new();
    let score = state.negamax(0, &mut tt, -INF_SCORE, INF_SCORE);
    assert_eq!(score, 44);
}

#[test]
fn test_best_empty_board_some() {
    let state = State::new();
    let mut tt = TranspositionTable::new();
    let best = state.best(2, Player::Red, &mut tt);
    assert!(best.is_some(), "an empty board always offers a move");
    assert!(best.unwrap() < COLS);
}

#[test]
fn test_best_full_board_none() {
    let state = full_draw_board();
    let mut tt = TranspositionTable::new();
    assert_eq!(state.best(2, Player::Red, &mut tt), None);
    assert_eq!(state.best(2, Player::Yellow, &mut tt), None);
}

#[test]
fn test_best_single_open_column() {
    // every column but one is packed: the engine has exactly one choice
    let mut state = full_draw_board();
    for row in 0..ROWS {
        state.data[row][2] = Cell::Empty;
    }
    let mut tt = TranspositionTable::new();
    assert_eq!(state.best(1, Player::Red, &mut tt), Some(2));
    assert_eq!(state.best(1, Player::Yellow, &mut tt), Some(2));
}

#[test]
fn test_negamax_uses_cached_entry() {
    // a deep-enough exact entry under the position's hash is returned as is
    let state = State::new();
    let mut tt = TranspositionTable::new();
    tt.insert(
        state.hash_value(),
        TranspositionEntry { eval: 123, depth: 9, flag: TranspositionFlag::EXACT },
    );
    let score = state.negamax(1, &mut tt, -INF_SCORE, INF_SCORE);
    assert_eq!(score, 123);
}

#[test]
fn test_hash_is_content_based() {
    let mut s1 = State::new();
    s1.drop(0, Player::Red);
    s1.drop(1, Player::Yellow);

    let mut s2 = State::new();
    s2.drop(0, Player::Red);
    s2.drop(1, Player::Yellow);

    assert_eq!(s1.hash_value(), s2.hash_value(), "equal grids must hash equally");

    let mut s3 = State::new();
    s3.drop(1, Player::Red);
    s3.drop(0, Player::Yellow);
    assert_ne!(s1.hash_value(), s3.hash_value(), "these two grids should not collide");
}

#[test]
fn test_board_wrapper() {
    let mut board = Board::new();
    assert_eq!(board.state().moves(), 0);
    board.state_mut().drop(3, Player::Red);
    assert_eq!(board.state().data[ROWS - 1][3], red());
    assert_eq!(board.state().player(), Player::Yellow);
}

#[test]
fn test_get_valid_skips_full_column() {
    let mut state = State::new();
    for i in 0..ROWS {
        let player = if i % 2 == 0 { Player::Red } else { Player::Yellow };
        state.drop(3, player);
    }
    assert_eq!(state.get_valid(), vec![0, 1, 2, 4, 5, 6]);
}
