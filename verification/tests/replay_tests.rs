use tile_dqn::data_augmenter::IdentityAugmenter;
use tile_dqn::fixed::{fpow, FIXED_ONE};
use tile_dqn::game::board::{Board, Direction, Tile, NUM_TILES};
use tile_dqn::game::game_rng::RealGameRng;
use tile_dqn::replay_buffer::{normalized_weights, priority_for, ReplayBuffer};
use tile_dqn::trainer::{compute_td_errors, epsilon_for};

use Tile::Value;

type BoardBuffer = ReplayBuffer<Board<RealGameRng>, IdentityAugmenter<Board<RealGameRng>>>;

fn board_with_value(v: u32) -> Board<RealGameRng> {
    let mut tiles = [Tile::Empty; NUM_TILES];
    tiles[0] = Value(v);
    tiles[5] = Value(2);
    Board::new_with_tiles(tiles, RealGameRng::new())
}

fn store_step(buffer: &mut BoardBuffer, reward: i64) {
    buffer.store(
        board_with_value(2),
        Direction::Left,
        reward,
        board_with_value(4),
    );
}

#[test]
fn ring_overwrites_only_the_oldest_slot() {
    let mut buffer: BoardBuffer = ReplayBuffer::new(IdentityAugmenter::new(), 8);
    for reward in 1..=9 {
        store_step(&mut buffer, reward);
    }
    assert_eq!(buffer.size(), 8);
    let slots = buffer.transitions(0, 8);
    // The ninth stored transition replaced the first; every other slot
    // still holds its original occupant.
    assert_eq!(slots[0].reward, 9);
    for slot in 1..8 {
        assert_eq!(slots[slot].reward, slot as i64 + 1);
    }
}

#[test]
fn fresh_buffer_end_to_end() {
    let mut buffer: BoardBuffer = ReplayBuffer::new(IdentityAugmenter::new(), 8);
    for reward in 1..=3 {
        store_step(&mut buffer, reward);
    }
    assert_eq!(buffer.size(), 3);
    assert_eq!(buffer.total_priority(), 3 * FIXED_ONE);
    let batch = buffer.sample(3, 0);
    assert_eq!(batch.indices.len(), 3);
    assert_eq!(batch.weights.len(), 3);
    assert_eq!(batch.transitions.len(), 3);
    let mut seen = [false; 3];
    for &index in &batch.indices {
        assert!(index < 3);
        seen[index] = true;
    }
    assert!(seen[0] && seen[1] && seen[2]);
    for &w in &batch.weights {
        assert_eq!(w, FIXED_ONE);
    }
}

#[test]
fn batch_weights_are_normalized() {
    let mut buffer: BoardBuffer = ReplayBuffer::new(IdentityAugmenter::new(), 8);
    for reward in 1..=6 {
        store_step(&mut buffer, reward);
    }
    let indices: Vec<usize> = vec![0, 1, 2, 3];
    let errors: Vec<i64> = vec![0, 30000, 60000, 90000];
    buffer.update_priorities(&indices, &errors, 39322, 655);
    let batch = buffer.sample(6, 26214);
    assert_eq!(batch.weights.len(), 6);
    let mut max_weight = 0;
    for &w in &batch.weights {
        assert!(1 <= w && w <= FIXED_ONE);
        if w > max_weight {
            max_weight = w;
        }
    }
    assert_eq!(max_weight, FIXED_ONE);
}

#[test]
fn equal_priorities_give_unit_weights() {
    let priorities: Vec<u64> = vec![500, 500, 500];
    let weights = normalized_weights(&priorities, 30000);
    assert_eq!(weights, vec![FIXED_ONE, FIXED_ONE, FIXED_ONE]);
}

#[test]
fn zero_error_priority_is_epsilon_to_the_alpha() {
    let alpha: u64 = 39322;
    let epsilon: u64 = 655;
    let expected = {
        let p = fpow(epsilon, alpha);
        if p < 1 {
            1
        } else {
            p
        }
    };
    assert_eq!(priority_for(0, alpha, epsilon), expected);
    // A prediction that equals its target has a zero error.
    let errors = compute_td_errors(&vec![12345, -7], &vec![12345, -7]);
    assert_eq!(errors, vec![0, 0]);
}

#[test]
fn priorities_update_the_mass() {
    let mut buffer: BoardBuffer = ReplayBuffer::new(IdentityAugmenter::new(), 4);
    store_step(&mut buffer, 1);
    store_step(&mut buffer, 2);
    let before = buffer.total_priority();
    assert_eq!(before, 2 * FIXED_ONE);
    // A zero error with a small epsilon lowers the slot's priority.
    buffer.update_priorities(&vec![0], &vec![0], 39322, 655);
    let after = buffer.total_priority();
    assert!(after < before);
    assert_eq!(after, FIXED_ONE + priority_for(0, 39322, 655));
}

#[test]
fn epsilon_decay_endpoints() {
    let initial: u64 = FIXED_ONE;
    let min: u64 = 3277;
    let decay: usize = 10000;
    assert_eq!(epsilon_for(initial, min, decay, 0), initial);
    assert_eq!(epsilon_for(initial, min, decay, decay), min);
    assert_eq!(epsilon_for(initial, min, decay, decay + 1), min);
    // Halfway through the decay the rate is half the initial rate.
    assert_eq!(epsilon_for(initial, 0, 10, 5), FIXED_ONE / 2);
    // An initial rate below the floor is clamped up immediately.
    assert_eq!(epsilon_for(100, 3277, 10000, 0), 3277);
}

#[test]
fn exponent_endpoints() {
    assert_eq!(fpow(FIXED_ONE, 12345), FIXED_ONE);
    assert_eq!(fpow(777, 0), FIXED_ONE);
    // The square root of a quarter is a half.
    assert_eq!(fpow(FIXED_ONE / 4, FIXED_ONE / 2), FIXED_ONE / 2);
}
