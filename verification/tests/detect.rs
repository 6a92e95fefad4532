use confour::board::{Cell, Player, State};
use confour::detect::{
    get_winner, sequence_in_direction, sequences_all, sequences_from_position, DIRECTIONS,
};

#[test]
fn test_sequence_in_direction_1() {
    let mut state = State::new();
    let fields = vec![(5, 0), (5, 1), (5, 2), (5, 3)];

    state.data[5][0] = Cell::Player { player: Player::Red };
    state.data[5][1] = Cell::Player { player: Player::Red };
    state.data[5][2] = Cell::Player { player: Player::Red };
    state.data[5][3] = Cell::Player { player: Player::Red };

    let seq = sequence_in_direction(&state, Player::Red, 5, 0, DIRECTIONS[0]);

    assert_eq!(seq.len(), 4, "Expected sequence of length 4, got {}", seq.len());

    assert_eq!(seq, fields, "Expected sequence {:?}, got {:?}", fields, seq);
}

#[test]
fn test_sequence_in_direction_2() {
    let mut state = State::new();
    let fields = vec![(2, 0), (3, 0), (4, 0), (5, 0)];

    state.data[5][0] = Cell::Player { player: Player::Red };
    state.data[4][0] = Cell::Player { player: Player::Red };
    state.data[3][0] = Cell::Player { player: Player::Red };
    state.data[2][0] = Cell::Player { player: Player::Red };

    let seq = sequence_in_direction(&state, Player::Red, 2, 0, DIRECTIONS[1]);

    assert_eq!(seq.len(), 4, "Expected sequence of length 4, got {}", seq.len());

    assert_eq!(seq, fields, "Expected sequence {:?}, got {:?}", fields, seq);
}

#[test]
fn test_sequence_in_direction_3() {
    let mut state = State::new();
    let fields = vec![(2, 0), (3, 1), (4, 2), (5, 3)];

    state.data[2][0] = Cell::Player { player: Player::Red };
    state.data[3][1] = Cell::Player { player: Player::Red };
    state.data[4][2] = Cell::Player { player: Player::Red };
    state.data[5][3] = Cell::Player { player: Player::Red };

    let seq = sequence_in_direction(&state, Player::Red, 2, 0, DIRECTIONS[2]);

    assert_eq!(seq.len(), 4, "Expected sequence of length 4, got {}", seq.len());

    assert_eq!(seq, fields, "Expected sequence {:?}, got {:?}", fields, seq);
}

#[test]
fn test_sequence_in_direction_4() {
    let mut state = State::new();
    let fields = vec![(2, 3), (3, 2), (4, 1), (5, 0)];

    state.data[2][3] = Cell::Player { player: Player::Red };
    state.data[3][2] = Cell::Player { player: Player::Red };
    state.data[4][1] = Cell::Player { player: Player::Red };
    state.data[5][0] = Cell::Player { player: Player::Red };

    let seq = sequence_in_direction(&state, Player::Red, 2, 3, DIRECTIONS[3]);

    assert_eq!(seq.len(), 4, "Expected sequence of length 4, got {}", seq.len());

    assert_eq!(seq, fields, "Expected sequence {:?}, got {:?}", fields, seq);
}

#[test]
fn test_sequence_from_position_1() {
    let mut state = State::new();
    let fields = vec![(2, 3), (3, 2), (4, 1), (5, 0)];

    state.data[2][3] = Cell::Player { player: Player::Red };
    state.data[3][2] = Cell::Player { player: Player::Red };
    state.data[4][1] = Cell::Player { player: Player::Red };
    state.data[5][0] = Cell::Player { player: Player::Red };

    let seqs1 = sequences_from_position(&state, Player::Red, 2, 3);
    let seqs2 = sequences_from_position(&state, Player::Red, 5, 0);

    assert_eq!(seqs1.len(), 1, "Expected 2 sequences, got {}", seqs1.len());

    assert_eq!(seqs2.len(), 1, "Expected 2 sequences, got {}", seqs2.len());

    assert_eq!(seqs1[0], fields, "Expected sequence {:?}, got {:?}", fields, seqs1[0]);

    assert_eq!(seqs2[0], fields, "Expected {:?}, got {:?}", fields, seqs2[0]);
}

#[test]
fn test_sequence_from_position_2() {
    let mut state = State::new();
    let mut fields = vec![(5, 0), (4, 0), (3, 0), (2, 0)];
    fields.sort();

    state.data[2][0] = Cell::Player { player: Player::Red };
    state.data[3][0] = Cell::Player { player: Player::Red };
    state.data[4][0] = Cell::Player { player: Player::Red };
    state.data[5][0] = Cell::Player { player: Player::Red };

    let seqs1 = sequences_from_position(&state, Player::Red, 5, 0);
    let seqs2 = sequences_from_position(&state, Player::Red, 2, 0);

    assert_eq!(seqs1.len(), 1, "Expected 2 sequences, got {}", seqs1.len());

    assert_eq!(seqs2.len(), 1, "Expected 2 sequences, got {}", seqs2.len());

    assert_eq!(seqs1[0], fields, "Expected sequence {:?}, got {:?}", fields, seqs1[0]);

    assert_eq!(seqs2[0], fields, "Expected {:?}, got {:?}", fields, seqs2[0]);
}

#[test]
fn test_sequences_all() {
    let mut state = State::new();
    let fields = vec![(2, 3), (3, 2), (4, 1), (5, 0)];

    state.data[2][3] = Cell::Player { player: Player::Red };
    state.data[3][2] = Cell::Player { player: Player::Red };
    state.data[4][1] = Cell::Player { player: Player::Red };
    state.data[5][0] = Cell::Player { player: Player::Red };

    let seqs = sequences_all(&state, Player::Red);

    assert_eq!(seqs.len(), 1, "Expected 1 sequence, got {}", seqs.len());

    assert_eq!(seqs[0], fields, "Expected sequence {:?}, got {:?}", fields, seqs[0]);
}

#[test]
fn test_get_winner_1() {
    let mut state = State::new();

    state.data[2][3] = Cell::Player { player: Player::Red };
    state.data[3][2] = Cell::Player { player: Player::Red };
    state.data[4][1] = Cell::Player { player: Player::Red };
    state.data[5][0] = Cell::Player { player: Player::Red };

    let winner = get_winner(&state);

    assert_eq!(winner, Some(Player::Red), "Expected winner to be Red, got {:?}", winner);
}

#[test]
fn test_get_winner_2() {
    let mut state = State::new();

    state.data[2][3] = Cell::Player { player: Player::Yellow };
    state.data[3][2] = Cell::Player { player: Player::Yellow };
    state.data[4][1] = Cell::Player { player: Player::Yellow };
    state.data[5][0] = Cell::Player { player: Player::Yellow };

    let winner = get_winner(&state);

    assert_eq!(winner, Some(Player::Yellow), "Expected winner to be Yellow, got {:?}", winner);
}

#[test]
fn test_get_winner_3() {
    let mut state = State::new();

    state.data[2][3] = Cell::Player { player: Player::Red };
    state.data[3][2] = Cell::Player { player: Player::Red };
    state.data[4][1] = Cell::Player { player: Player::Red };

    state.data[2][2] = Cell::Player { player: Player::Yellow };
    state.data[3][1] = Cell::Player { player: Player::Yellow };
    state.data[4][0] = Cell::Player { player: Player::Yellow };

    let winner = get_winner(&state);

    assert_eq!(winner, None, "Expected no winner, got {:?}", winner);
}
