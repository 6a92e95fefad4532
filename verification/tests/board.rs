use confour::board::{Cell, Player, State, COLS, ROWS};

#[test]
fn test_from_data() {
    let data = vec![vec![Cell::Empty; COLS]; ROWS];
    let state = State::from_data(data.clone());

    assert_eq!(
        state.data, data,
        "Expected the data to be the same, but it wasn't",
    );

    assert_eq!(
        ROWS,
        state.data.len(),
        "Expected the number of rows to be {}, but it wasn't",
        ROWS,
    );

    assert_eq!(
        COLS,
        state.data[0].len(),
        "Expected the number of columns to be {}, but it wasn't",
        COLS,
    );
}

#[test]
fn test_is_full() {
    let mut state = State::new();

    assert!(
        !state.is_full(),
        "Expected an empty board to not be full, but it was",
    );

    for col in 0..COLS {
        for row in 0..ROWS {
            state.data[row][col] = Cell::Player { player: Player::Red };
        }
    }
    assert!(
        state.is_full(),
        "Expected a full board to be full, but it wasn't",
    );
}

#[test]
fn test_is_valid() {
    let mut state = State::new();

    for col in 0..COLS {
        assert!(
            state.is_valid(col),
            "Expected an empty board to result in all valid columns, but it didn't",
        );
    }

    for row in 0..ROWS {
        for col in 0..COLS {
            state.data[row][col] = Cell::Player { player: Player::Red };
        }
    }
    for col in 0..COLS {
        assert!(
            !state.is_valid(col),
            "Expected a full board to result in no valid columns, but it didn't",
        );
    }
}

#[test]
fn test_drop() {
    let mut state = State::new();

    state.drop(0, Player::Red);
    assert_eq!(
        state.data[ROWS - 1][0],
        Cell::Player { player: Player::Red },
        "Expected player 1 to be in the last row of the column, but it wasn't",
    );

    state.drop(0, Player::Yellow);
    assert_eq!(
        state.data[ROWS - 2][0],
        Cell::Player { player: Player::Yellow },
        "Expected player 2 to be in the second to last row of the column, but it wasn't",
    );
}

#[test]
fn test_dropped() {
    let state = State::new();
    let new_state = state.dropped(0, Player::Red);

    assert_eq!(
        new_state.data[ROWS - 1][0],
        Cell::Player { player: Player::Red },
        "Expected player 1 to be in the last row of the column, but it wasn't",
    );
}

#[test]
fn test_index() {
    let state = State::new();
    assert_eq!(
        state.data[0][0],
        Cell::Empty,
        "Expected the cell at (0, 0) to be accessible yet empty, but it wasn't",
    );
}

#[test]
fn test_index_mut() {
    let mut state = State::new();
    state.data[0][0] = Cell::Player { player: Player::Red };
    assert_eq!(
        state.data[0][0],
        Cell::Player { player: Player::Red },
        "Expected the cell at (0, 0) to be player 1, but it wasn't",
    );
}

#[test]
fn test_cell_player() {
    let player_cell = Cell::Player { player: Player::Red };
    let empty_cell = Cell::Empty;

    assert!(
        player_cell.player().is_some(),
        "Expected a player cell to have a player, but it didn't",
    );

    assert_eq!(
        player_cell.player().unwrap(),
        Player::Red,
        "Expected the player to be player 1 / red, but it wasn't",
    );

    assert!(
        empty_cell.player().is_none(),
        "Expected an empty cell to not have a player, but it did",
    );

    assert!(
        empty_cell.is_empty(),
        "Expected an empty cell to be empty, but it wasn't",
    );
}

#[test]
fn test_other() {
    assert_eq!(
        Player::Red.other(),
        Player::Yellow,
        "Expected player 1's opponent to be player 2, but it wasn't",
    );

    assert_eq!(
        Player::Yellow.other(),
        Player::Red,
        "Expected player 2's opponent to be player 1, but it wasn't",
    );
}

#[test]
fn test_is_opponent() {
    assert!(
        Player::Red.is_opponent(Player::Yellow),
        "Expected player 1 to be player 2's opponent, but it wasn't",
    );

    assert!(
        Player::Yellow.is_opponent(Player::Red),
        "Expected player 2 to be player 1's opponent, but it wasn't",
    );
}

#[test]
fn test_is_maximizer() {
    assert!(
        Player::Red.is_maximizer(),
        "Expected player 1 to be the maximizer, but it wasn't",
    );

    assert!(
        !Player::Yellow.is_maximizer(),
        "Expected player 2 to not be the maximizer, but it was",
    );
}

#[test]
fn test_is_minimizer() {
    assert!(
        !Player::Red.is_minimizer(),
        "Expected player 1 to not be the minimizer, but it was",
    );

    assert!(
        Player::Yellow.is_minimizer(),
        "Expected player 2 to be the minimizer, but it wasn't",
    );
}

#[test]
fn test_moves() {
    let mut state = State::new();
    assert_eq!(
        state.moves(),
        0,
        "Expected the number of moves to be 0, but it wasn't",
    );

    state.drop(0, Player::Red);
    assert_eq!(
        state.moves(),
        1,
        "Expected the number of moves to be 1, but it wasn't",
    );

    state.drop(0, Player::Yellow);
    assert_eq!(
        state.moves(),
        2,
        "Expected the number of moves to be 2, but it wasn't",
    );
}

#[test]
fn test_state_player() {
    let state = State::new();
    assert_eq!(
        state.player(),
        Player::Red,
        "Expected player 1 to be the first player, but it wasn't",
    );

    let mut state = State::new();
    state.drop(0, Player::Red);
    assert_eq!(
        state.player(),
        Player::Yellow,
        "Expected player 2 to be the second player, but it wasn't",
    );
}
