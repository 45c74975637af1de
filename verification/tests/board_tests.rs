use tile_dqn::game::board::{Board, Direction, Tile, NUM_TILES};
use tile_dqn::game::game_rng::{FakeGameRng, RealGameRng};

use Tile::{Empty, Value};

struct MergeConfiguration {
    initial_tiles: [Tile; NUM_TILES],
    direction: Direction,
    expected_tiles: [Tile; NUM_TILES],
    expected_score: u32,
    new_tile_index: usize,
}

fn run_merge_configurations(configurations: Vec<MergeConfiguration>) {
    for config in configurations {
        let mut board = Board::new_with_tiles(
            config.initial_tiles,
            FakeGameRng::new(2, config.new_tile_index),
        );
        match config.direction {
            Direction::Up => board.move_up(),
            Direction::Down => board.move_down(),
            Direction::Left => board.move_left(),
            Direction::Right => board.move_right(),
        }
        assert_eq!(
            board.tiles(),
            config.expected_tiles.to_vec(),
            "Merge failed in direction {:?}",
            config.direction
        );
        assert_eq!(
            board.score(),
            config.expected_score,
            "Incorrect score after the merge in direction {:?}",
            config.direction
        );
    }
}

#[test]
fn new_board_with_two_tiles() {
    let board = Board::new();

    assert_eq!(board.score(), 0);
    assert_eq!(
        board
            .tiles()
            .iter()
            .filter(|tile| {
                match tile {
                    Tile::Empty => false,
                    Tile::Value(value) if *value == 2 || *value == 4 => true,
                    Tile::Value(value) => {
                        panic!("{} is not a correct tile value", value)
                    }
                }
            })
            .count(),
        2
    );
}

#[test]
fn move_right() {
    let new_tile_value = 2;
    let new_tile_index = 0;

    let mut board = Board::new_with_tiles(
        [
            Value(2), Empty, Empty, Empty,
            Value(2), Value(4), Empty, Empty,
            Value(2), Value(4), Value(8), Empty,
            Value(2), Value(4), Value(8), Value(16),
        ],
        FakeGameRng::new(new_tile_value, new_tile_index),
    );

    let expected_result: [Tile; 16] = [
        Value(2), Empty, Empty, Value(2),
        Empty, Empty, Value(2), Value(4),
        Empty, Value(2), Value(4), Value(8),
        Value(2), Value(4), Value(8), Value(16),
    ];

    board.move_right();

    assert_eq!(board.tiles(), expected_result.to_vec());
}

#[test]
fn move_left() {
    let new_tile_value = 2;
    let new_tile_index = 3;

    let mut board = Board::new_with_tiles(
        [
            Empty, Empty, Empty, Value(2),
            Empty, Empty, Value(2), Value(4),
            Empty, Value(2), Value(4), Value(8),
            Value(2), Value(4), Value(8), Value(16),
        ],
        FakeGameRng::new(new_tile_value, new_tile_index),
    );

    let expected_result: [Tile; 16] = [
        Value(2), Empty, Empty, Value(2),
        Value(2), Value(4), Empty, Empty,
        Value(2), Value(4), Value(8), Empty,
        Value(2), Value(4), Value(8), Value(16),
    ];

    board.move_left();

    assert_eq!(board.tiles(), expected_result.to_vec());
}

#[test]
fn move_down() {
    let new_tile_value = 2;
    let new_tile_index = 0;

    let mut board = Board::new_with_tiles(
        [
            Value(2), Value(4), Value(8), Value(16),
            Empty, Value(2), Value(4), Value(8),
            Empty, Empty, Value(2), Value(4),
            Empty, Empty, Empty, Value(2),
        ],
        FakeGameRng::new(new_tile_value, new_tile_index),
    );

    let expected_result: [Tile; 16] = [
        Value(2), Empty, Empty, Value(16),
        Empty, Empty, Value(8), Value(8),
        Empty, Value(4), Value(4), Value(4),
        Value(2), Value(2), Value(2), Value(2),
    ];

    board.move_down();

    assert_eq!(board.tiles(), expected_result.to_vec());
}

#[test]
fn move_up() {
    let new_tile_value = 2;
    let new_tile_index = 12;

    let mut board = Board::new_with_tiles(
        [
            Empty, Empty, Empty, Value(16),
            Empty, Empty, Value(8), Value(8),
            Empty, Value(4), Value(4), Value(4),
            Value(2), Value(2), Value(2), Value(2),
        ],
        FakeGameRng::new(new_tile_value, new_tile_index),
    );

    let expected_result: [Tile; 16] = [
        Value(2), Value(4), Value(8), Value(16),
        Empty, Value(2), Value(4), Value(8),
        Empty, Empty, Value(2), Value(4),
        Value(2), Empty, Empty, Value(2),
    ];

    board.move_up();

    assert_eq!(board.tiles(), expected_result.to_vec());
}

#[test]
fn merging_tiles() {
    let configurations = vec![
        MergeConfiguration {
            initial_tiles: [
                Value(2), Value(4), Value(8), Value(16),
                Value(2), Value(4), Value(8), Value(16),
                Empty, Empty, Empty, Empty,
                Empty, Empty, Empty, Empty,
            ],
            direction: Direction::Up,
            expected_tiles: [
                Value(4), Value(8), Value(16), Value(32),
                Empty, Empty, Empty, Empty,
                Empty, Empty, Empty, Empty,
                Empty, Empty, Empty, Value(2),
            ],
            expected_score: 4 + 8 + 16 + 32,
            new_tile_index: 15,
        },
        MergeConfiguration {
            initial_tiles: [
                Empty, Empty, Empty, Empty,
                Empty, Empty, Empty, Empty,
                Value(2), Value(4), Value(8), Value(16),
                Value(2), Value(4), Value(8), Value(16),
            ],
            direction: Direction::Down,
            expected_tiles: [
                Empty, Empty, Empty, Value(2),
                Empty, Empty, Empty, Empty,
                Empty, Empty, Empty, Empty,
                Value(4), Value(8), Value(16), Value(32),
            ],
            expected_score: 4 + 8 + 16 + 32,
            new_tile_index: 3,
        },
        MergeConfiguration {
            initial_tiles: [
                Value(2), Value(2), Empty, Empty,
                Value(4), Value(4), Empty, Empty,
                Value(8), Value(8), Empty, Empty,
                Value(16), Value(16), Empty, Empty,
            ],
            direction: Direction::Left,
            expected_tiles: [
                Value(4), Empty, Empty, Empty,
                Value(8), Empty, Empty, Empty,
                Value(16), Empty, Empty, Empty,
                Value(32), Empty, Empty, Value(2),
            ],
            expected_score: 4 + 8 + 16 + 32,
            new_tile_index: 15,
        },
        MergeConfiguration {
            initial_tiles: [
                Empty, Empty, Value(2), Value(2),
                Empty, Empty, Value(4), Value(4),
                Empty, Empty, Value(8), Value(8),
                Empty, Empty, Value(16), Value(16),
            ],
            direction: Direction::Right,
            expected_tiles: [
                Empty, Empty, Empty, Value(4),
                Empty, Empty, Empty, Value(8),
                Empty, Empty, Empty, Value(16),
                Value(2), Empty, Empty, Value(32),
            ],
            expected_score: 4 + 8 + 16 + 32,
            new_tile_index: 12,
        },
    ];

    run_merge_configurations(configurations);
}

#[test]
fn merging_3_tiles() {
    let configurations = vec![
        MergeConfiguration {
            initial_tiles: [
                Value(2), Value(4), Value(8), Value(16),
                Value(2), Value(4), Value(8), Value(16),
                Value(2), Value(4), Value(8), Value(16),
                Empty, Empty, Empty, Empty,
            ],
            direction: Direction::Up,
            expected_tiles: [
                Value(4), Value(8), Value(16), Value(32),
                Value(2), Value(4), Value(8), Value(16),
                Empty, Empty, Empty, Empty,
                Empty, Empty, Empty, Value(2),
            ],
            expected_score: 4 + 8 + 16 + 32,
            new_tile_index: 15,
        },
        MergeConfiguration {
            initial_tiles: [
                Empty, Empty, Empty, Empty,
                Value(2), Value(4), Value(8), Value(16),
                Value(2), Value(4), Value(8), Value(16),
                Value(2), Value(4), Value(8), Value(16),
            ],
            direction: Direction::Down,
            expected_tiles: [
                Empty, Empty, Empty, Value(2),
                Empty, Empty, Empty, Empty,
                Value(2), Value(4), Value(8), Value(16),
                Value(4), Value(8), Value(16), Value(32),
            ],
            expected_score: 4 + 8 + 16 + 32,
            new_tile_index: 3,
        },
        MergeConfiguration {
            initial_tiles: [
                Value(2), Value(2), Value(2), Empty,
                Value(4), Value(4), Value(4), Empty,
                Value(8), Value(8), Value(8), Empty,
                Value(16), Value(16), Value(16), Empty,
            ],
            direction: Direction::Left,
            expected_tiles: [
                Value(4), Value(2), Empty, Empty,
                Value(8), Value(4), Empty, Empty,
                Value(16), Value(8), Empty, Empty,
                Value(32), Value(16), Empty, Value(2),
            ],
            expected_score: 4 + 8 + 16 + 32,
            new_tile_index: 15,
        },
        MergeConfiguration {
            initial_tiles: [
                Empty, Value(2), Value(2), Value(2),
                Empty, Value(4), Value(4), Value(4),
                Empty, Value(8), Value(8), Value(8),
                Empty, Value(16), Value(16), Value(16),
            ],
            direction: Direction::Right,
            expected_tiles: [
                Empty, Empty, Value(2), Value(4),
                Empty, Empty, Value(4), Value(8),
                Empty, Empty, Value(8), Value(16),
                Value(2), Empty, Value(16), Value(32),
            ],
            expected_score: 4 + 8 + 16 + 32,
            new_tile_index: 12,
        },
    ];

    run_merge_configurations(configurations);
}

#[test]
fn merging_4_tiles() {
    let configurations = vec![
        MergeConfiguration {
            initial_tiles: [
                Value(2), Value(4), Value(8), Value(16),
                Value(2), Value(4), Value(8), Value(16),
                Value(2), Value(4), Value(8), Value(16),
                Value(2), Value(4), Value(8), Value(16),
            ],
            direction: Direction::Up,
            expected_tiles: [
                Value(4), Value(8), Value(16), Value(32),
                Value(4), Value(8), Value(16), Value(32),
                Empty, Empty, Empty, Empty,
                Empty, Empty, Empty, Value(2),
            ],
            expected_score: 2 * (4 + 8 + 16 + 32),
            new_tile_index: 15,
        },
        MergeConfiguration {
            initial_tiles: [
                Value(2), Value(4), Value(8), Value(16),
                Value(2), Value(4), Value(8), Value(16),
                Value(2), Value(4), Value(8), Value(16),
                Value(2), Value(4), Value(8), Value(16),
            ],
            direction: Direction::Down,
            expected_tiles: [
                Empty, Empty, Empty, Value(2),
                Empty, Empty, Empty, Empty,
                Value(4), Value(8), Value(16), Value(32),
                Value(4), Value(8), Value(16), Value(32),
            ],
            expected_score: 2 * (4 + 8 + 16 + 32),
            new_tile_index: 3,
        },
        MergeConfiguration {
            initial_tiles: [
                Value(2), Value(2), Value(2), Value(2),
                Value(4), Value(4), Value(4), Value(4),
                Value(8), Value(8), Value(8), Value(8),
                Value(16), Value(16), Value(16), Value(16),
            ],
            direction: Direction::Left,
            expected_tiles: [
                Value(4), Value(4), Empty, Empty,
                Value(8), Value(8), Empty, Empty,
                Value(16), Value(16), Empty, Empty,
                Value(32), Value(32), Empty, Value(2),
            ],
            expected_score: 2 * (4 + 8 + 16 + 32),
            new_tile_index: 15,
        },
        MergeConfiguration {
            initial_tiles: [
                Value(2), Value(2), Value(2), Value(2),
                Value(4), Value(4), Value(4), Value(4),
                Value(8), Value(8), Value(8), Value(8),
                Value(16), Value(16), Value(16), Value(16),
            ],
            direction: Direction::Right,
            expected_tiles: [
                Empty, Empty, Value(4), Value(4),
                Empty, Empty, Value(8), Value(8),
                Empty, Empty, Value(16), Value(16),
                Value(2), Empty, Value(32), Value(32),
            ],
            expected_score: 2 * (4 + 8 + 16 + 32),
            new_tile_index: 12,
        },
    ];

    run_merge_configurations(configurations);
}

#[test]
fn new_board_is_not_over() {
    let board = Board::new();
    assert_eq!(board.is_over(), false);
}

#[test]
fn full_board_with_no_possible_move_is_over() {
    let board = Board::new_with_tiles(
        [
            Value(2), Value(4), Value(2), Value(4),
            Value(4), Value(2), Value(4), Value(2),
            Value(2), Value(4), Value(2), Value(4),
            Value(4), Value(2), Value(4), Value(2),
        ],
        FakeGameRng::new(2, 2),
    );
    assert_eq!(board.is_over(), true);
}

#[test]
fn full_board_with_possible_moves_is_not_over() {
    let board = Board::new_with_tiles(
        [
            Value(2), Value(4), Value(2), Value(4),
            Value(2), Value(2), Value(4), Value(2),
            Value(8), Value(4), Value(2), Value(8),
            Value(4), Value(2), Value(4), Value(4),
        ],
        FakeGameRng::new(2, 2),
    );
    assert_eq!(board.is_over(), false);
}

#[test]
fn can_move_up() {
    let configurations: Vec<[Tile; NUM_TILES]> = vec![
        [
            Value(2), Empty, Empty, Empty,
            Empty, Empty, Empty, Empty,
            Empty, Empty, Empty, Empty,
            Empty, Empty, Empty, Empty,
        ],
        [
            Empty, Empty, Empty, Empty,
            Value(2), Empty, Empty, Empty,
            Empty, Empty, Empty, Empty,
            Empty, Empty, Empty, Empty,
        ],
        [
            Value(2), Empty, Empty, Empty,
            Value(2), Empty, Empty, Empty,
            Empty, Empty, Empty, Empty,
            Empty, Empty, Empty, Empty,
        ],
    ];

    let expected_results = vec![false, true, true];

    for (index, example) in configurations.into_iter().zip(expected_results).enumerate() {
        let board = Board::new_with_tiles(example.0, FakeGameRng::new(2, 2));
        assert_eq!(
            board.can_move_up(),
            example.1,
            "Test failed for configuration {}",
            index + 1
        );
    }
}

#[test]
fn can_move_down() {
    let configurations: Vec<[Tile; NUM_TILES]> = vec![
        [
            Empty, Empty, Empty, Empty,
            Empty, Empty, Empty, Empty,
            Empty, Empty, Empty, Empty,
            Value(2), Empty, Empty, Empty,
        ],
        [
            Empty, Empty, Empty, Empty,
            Empty, Empty, Empty, Empty,
            Value(2), Empty, Empty, Empty,
            Empty, Empty, Empty, Empty,
        ],
        [
            Empty, Empty, Empty, Empty,
            Empty, Empty, Empty, Empty,
            Value(2), Empty, Empty, Empty,
            Value(2), Empty, Empty, Empty,
        ],
    ];

    let expected_results = vec![false, true, true];

    for (index, example) in configurations.into_iter().zip(expected_results).enumerate() {
        let board = Board::new_with_tiles(example.0, FakeGameRng::new(2, 2));
        assert_eq!(
            board.can_move_down(),
            example.1,
            "Test failed for configuration {}",
            index + 1
        );
    }
}

#[test]
fn can_move_left() {
    let configurations: Vec<[Tile; NUM_TILES]> = vec![
        [
            Value(2), Empty, Empty, Empty,
            Empty, Empty, Empty, Empty,
            Empty, Empty, Empty, Empty,
            Empty, Empty, Empty, Empty,
        ],
        [
            Empty, Value(2), Empty, Empty,
            Empty, Empty, Empty, Empty,
            Empty, Empty, Empty, Empty,
            Empty, Empty, Empty, Empty,
        ],
        [
            Value(2), Value(2), Empty, Empty,
            Empty, Empty, Empty, Empty,
            Empty, Empty, Empty, Empty,
            Empty, Empty, Empty, Empty,
        ],
    ];

    let expected_results = vec![false, true, true];

    for (index, example) in configurations.into_iter().zip(expected_results).enumerate() {
        let board = Board::new_with_tiles(example.0, FakeGameRng::new(2, 2));
        assert_eq!(
            board.can_move_left(),
            example.1,
            "Test failed for configuration {}",
            index + 1
        );
    }
}

#[test]
fn can_move_right() {
    let configurations: Vec<[Tile; NUM_TILES]> = vec![
        [
            Empty, Empty, Empty, Value(2),
            Empty, Empty, Empty, Empty,
            Empty, Empty, Empty, Empty,
            Empty, Empty, Empty, Empty,
        ],
        [
            Empty, Empty, Value(2), Empty,
            Empty, Empty, Empty, Empty,
            Empty, Empty, Empty, Empty,
            Empty, Empty, Empty, Empty,
        ],
        [
            Empty, Empty, Value(2), Value(2),
            Empty, Empty, Empty, Empty,
            Empty, Empty, Empty, Empty,
            Empty, Empty, Empty, Empty,
        ],
    ];

    let expected_results = vec![false, true, true];

    for (index, example) in configurations.into_iter().zip(expected_results).enumerate() {
        let board = Board::new_with_tiles(example.0, FakeGameRng::new(2, 2));
        assert_eq!(
            board.can_move_right(),
            example.1,
            "Test failed for configuration {}",
            index + 1
        );
    }
}

#[test]
fn losing_board_gives_negative_reward() {
    let critic = tile_dqn::training::training_critic::TrainingCritic::new();
    let start = Board::new_with_tiles(
        [
            Value(2), Value(4), Value(2), Value(4),
            Value(4), Value(2), Value(4), Value(2),
            Value(2), Value(4), Value(2), Value(4),
            Value(4), Value(2), Empty, Value(2),
        ],
        RealGameRng::new(),
    );
    let over = Board::new_with_tiles(
        [
            Value(2), Value(4), Value(2), Value(4),
            Value(4), Value(2), Value(4), Value(2),
            Value(2), Value(4), Value(2), Value(4),
            Value(4), Value(2), Value(8), Value(2),
        ],
        RealGameRng::new(),
    );
    assert_eq!(critic.reward_value(&start, &over), -655360);
}

#[test]
fn reward_counts_score_and_empty_cells() {
    let critic = tile_dqn::training::training_critic::TrainingCritic::new();
    let mut empty_board = [Tile::Empty; 16];
    empty_board[0] = Value(2);
    let start = Board::new_with_tiles(empty_board, RealGameRng::new());
    let mut next_tiles = [Tile::Empty; 16];
    next_tiles[0] = Value(4);
    let next = Board::new_with_tiles(next_tiles, RealGameRng::new());
    // No score gain: the reward is one sixteenth per empty cell, fifteen
    // cells here.
    assert_eq!(critic.reward_value(&start, &next), 15 * 65536 / 16);
}
