use tile_dqn::data_augmenter::DataAugmenterType;
use tile_dqn::game::board::{Board, Direction, Tile, NUM_TILES};
use tile_dqn::game::game_rng::RealGameRng;
use tile_dqn::training::training_data_augmenter::TrainingDataAugmenter;

use Tile::{Empty, Value};

#[test]
fn board_mirroring() {
    let original_states: Vec<[Tile; NUM_TILES]> = vec![
        [
            Value(2), Value(4), Empty, Empty,
            Value(8), Value(16), Empty, Empty,
            Empty, Empty, Empty, Empty,
            Empty, Empty, Empty, Empty,
        ],
        [
            Empty, Empty, Value(4), Value(2),
            Empty, Empty, Value(16), Value(8),
            Empty, Empty, Empty, Empty,
            Empty, Empty, Empty, Empty,
        ],
        [
            Empty, Empty, Empty, Empty,
            Empty, Empty, Empty, Empty,
            Empty, Empty, Value(16), Value(8),
            Empty, Empty, Value(4), Value(2),
        ],
        [
            Empty, Empty, Empty, Empty,
            Empty, Empty, Empty, Empty,
            Value(8), Value(16), Empty, Empty,
            Value(2), Value(4), Empty, Empty,
        ],
    ];

    let mirrored_states: Vec<[Tile; NUM_TILES]> = vec![
        [
            Empty, Empty, Value(4), Value(2),
            Empty, Empty, Value(16), Value(8),
            Empty, Empty, Empty, Empty,
            Empty, Empty, Empty, Empty,
        ],
        [
            Value(2), Value(4), Empty, Empty,
            Value(8), Value(16), Empty, Empty,
            Empty, Empty, Empty, Empty,
            Empty, Empty, Empty, Empty,
        ],
        [
            Empty, Empty, Empty, Empty,
            Empty, Empty, Empty, Empty,
            Value(8), Value(16), Empty, Empty,
            Value(2), Value(4), Empty, Empty,
        ],
        [
            Empty, Empty, Empty, Empty,
            Empty, Empty, Empty, Empty,
            Empty, Empty, Value(16), Value(8),
            Empty, Empty, Value(4), Value(2),
        ],
    ];

    for (index, (original, mirrored)) in
        original_states.into_iter().zip(mirrored_states).enumerate()
    {
        let original_board = Board::new_with_tiles(original, RealGameRng::new());
        let mirrored_board = Board::new_with_tiles(mirrored, RealGameRng::new());
        assert_eq!(
            original_board.mirrored_horizontally(),
            mirrored_board,
            "Mismatch at index {}",
            index
        );
    }
}

#[test]
fn board_rotating() {
    let original_states: Vec<[Tile; NUM_TILES]> = vec![
        [
            Value(2), Value(4), Empty, Empty,
            Value(8), Value(16), Empty, Empty,
            Empty, Empty, Empty, Empty,
            Empty, Empty, Empty, Empty,
        ],
        [
            Empty, Empty, Value(4), Value(2),
            Empty, Empty, Value(16), Value(8),
            Empty, Empty, Empty, Empty,
            Empty, Empty, Empty, Empty,
        ],
        [
            Empty, Empty, Empty, Empty,
            Empty, Empty, Empty, Empty,
            Empty, Empty, Value(16), Value(8),
            Empty, Empty, Value(4), Value(2),
        ],
        [
            Empty, Empty, Empty, Empty,
            Empty, Empty, Empty, Empty,
            Value(8), Value(16), Empty, Empty,
            Value(2), Value(4), Empty, Empty,
        ],
    ];

    let rotated_states: Vec<[Tile; NUM_TILES]> = vec![
        [
            Empty, Empty, Value(8), Value(2),
            Empty, Empty, Value(16), Value(4),
            Empty, Empty, Empty, Empty,
            Empty, Empty, Empty, Empty,
        ],
        [
            Empty, Empty, Empty, Empty,
            Empty, Empty, Empty, Empty,
            Empty, Empty, Value(16), Value(4),
            Empty, Empty, Value(8), Value(2),
        ],
        [
            Empty, Empty, Empty, Empty,
            Empty, Empty, Empty, Empty,
            Value(4), Value(16), Empty, Empty,
            Value(2), Value(8), Empty, Empty,
        ],
        [
            Value(2), Value(8), Empty, Empty,
            Value(4), Value(16), Empty, Empty,
            Empty, Empty, Empty, Empty,
            Empty, Empty, Empty, Empty,
        ],
    ];

    for (index, (original, rotated)) in
        original_states.into_iter().zip(rotated_states).enumerate()
    {
        let original_board = Board::new_with_tiles(original, RealGameRng::new());
        let rotated_board = Board::new_with_tiles(rotated, RealGameRng::new());
        assert_eq!(
            original_board.rotated_cw(),
            rotated_board,
            "Mismatch at index {}",
            index
        );
    }
}

#[test]
fn direction_mirroring() {
    let original_directions = [
        Direction::Up,
        Direction::Down,
        Direction::Left,
        Direction::Right,
    ];
    let mirrored_directions = [
        Direction::Up,
        Direction::Down,
        Direction::Right,
        Direction::Left,
    ];
    for (original, mirrored) in original_directions.into_iter().zip(mirrored_directions) {
        assert_eq!(original.mirrored_horizontally(), mirrored);
    }
}

#[test]
fn direction_rotating() {
    let original_directions = [
        Direction::Up,
        Direction::Down,
        Direction::Left,
        Direction::Right,
    ];
    let mirrored_directions = [
        Direction::Right,
        Direction::Left,
        Direction::Up,
        Direction::Down,
    ];
    for (original, mirrored) in original_directions.into_iter().zip(mirrored_directions) {
        assert_eq!(original.rotated_cw(), mirrored);
    }
}

#[test]
fn mirroring_twice_gives_the_original_board() {
    let board = Board::new_with_tiles(
        [
            Value(2), Value(4), Empty, Empty,
            Value(8), Value(16), Empty, Empty,
            Empty, Value(32), Empty, Empty,
            Empty, Empty, Empty, Value(64),
        ],
        RealGameRng::new(),
    );
    assert_eq!(board.mirrored_horizontally().mirrored_horizontally(), board);
}

#[test]
fn rotating_four_times_gives_the_original_board() {
    let board = Board::new_with_tiles(
        [
            Value(2), Value(4), Empty, Empty,
            Value(8), Value(16), Empty, Empty,
            Empty, Value(32), Empty, Empty,
            Empty, Empty, Empty, Value(64),
        ],
        RealGameRng::new(),
    );
    assert_eq!(
        board.rotated_cw().rotated_cw().rotated_cw().rotated_cw(),
        board
    );
}

#[test]
fn augmenting_yields_eight_uniform_transitions() {
    let augmenter = TrainingDataAugmenter::new();
    let state = Board::new_with_tiles(
        [
            Value(2), Value(2), Empty, Empty,
            Empty, Empty, Empty, Empty,
            Empty, Empty, Empty, Empty,
            Empty, Empty, Empty, Value(4),
        ],
        RealGameRng::new(),
    );
    let next_state = Board::new_with_tiles(
        [
            Value(4), Empty, Empty, Empty,
            Empty, Empty, Empty, Empty,
            Empty, Value(2), Empty, Empty,
            Empty, Empty, Empty, Value(4),
        ],
        RealGameRng::new(),
    );
    let reward: i64 = 4321;
    let transitions = augmenter.augment(state, Direction::Left, reward, next_state);
    assert_eq!(transitions.len(), 8);
    for t in &transitions {
        assert_eq!(t.reward, reward);
        assert_eq!(t.is_terminal, transitions[0].is_terminal);
        assert_eq!(t.state.len(), 192);
        assert_eq!(t.next_state.len(), 192);
        assert_eq!(t.invalid_actions_mask.len(), 4);
    }
    // A left move mirrors to a right move and rotates clockwise to an up
    // move.
    assert_eq!(transitions[0].action, 2);
    assert_eq!(transitions[1].action, 3);
    assert_eq!(transitions[2].action, 0);
}
