use tile_dqn::data_augmenter::IdentityAugmenter;
use tile_dqn::game::board::{Board, Direction, Tile, NUM_TILES};
use tile_dqn::game::game_rng::RealGameRng;
use tile_dqn::replay_buffer::{ReplayBuffer, StateTransition};
use tile_dqn::serialization::codec::{decode_transitions, encode_transitions};
use tile_dqn::serialization::deserializer::{get_chunk_list, TrainingDeserializer};
use tile_dqn::serialization::serializer::{
    chunk_file_name, is_path_empty, SessionSerializationError, TrainingSerializer,
};
use tile_dqn::serialization::training_config::{
    ReplayBufferConfig, TrainingConfig, TrainingInfo,
};
use tile_dqn::trainer::Hyperparameters;

use Tile::Value;

type BoardBuffer = ReplayBuffer<Board<RealGameRng>, IdentityAugmenter<Board<RealGameRng>>>;

fn board_with_value(v: u32) -> Board<RealGameRng> {
    let mut tiles = [Tile::Empty; NUM_TILES];
    tiles[0] = Value(v);
    tiles[9] = Value(2);
    Board::new_with_tiles(tiles, RealGameRng::new())
}

fn sample_transition(reward: i64, terminal: bool) -> StateTransition {
    StateTransition {
        state: vec![1, 0, 3, 9],
        action: 2,
        reward,
        next_state: vec![0, 0, 7, 1],
        invalid_actions_mask: vec![true, false, true, false],
        is_terminal: terminal,
    }
}

#[test]
fn codec_round_trip() {
    let transitions = vec![
        sample_transition(-655360, true),
        sample_transition(0, false),
        sample_transition(i64::MAX, false),
        sample_transition(i64::MIN, true),
    ];
    let bytes = encode_transitions(&transitions);
    let decoded = decode_transitions(&bytes).expect("a fresh encoding decodes");
    assert_eq!(decoded, transitions);
}

#[test]
fn decoding_rejects_trailing_bytes() {
    let transitions = vec![sample_transition(5, false)];
    let mut bytes = encode_transitions(&transitions);
    bytes.push(0);
    assert!(decode_transitions(&bytes).is_none());
}

#[test]
fn decoding_rejects_malformed_flags() {
    let transitions = vec![sample_transition(5, false)];
    let mut bytes = encode_transitions(&transitions);
    let last = bytes.len() - 1;
    // The final byte is the terminal flag; flags must be zero or one.
    bytes[last] = 7;
    assert!(decode_transitions(&bytes).is_none());
}

#[test]
fn chunk_names_are_zero_padded() {
    assert_eq!(chunk_file_name(1), b"00001.chunk".to_vec());
    assert_eq!(chunk_file_name(123), b"00123.chunk".to_vec());
    assert_eq!(chunk_file_name(99999), b"99999.chunk".to_vec());
}

#[test]
fn chunk_lists_are_filtered_and_sorted() {
    let entries: Vec<Vec<u8>> = vec![
        b"00002.chunk".to_vec(),
        b"session.json".to_vec(),
        b"00001.chunk".to_vec(),
        b"model".to_vec(),
        b"00010.chunk".to_vec(),
    ];
    let sorted = get_chunk_list(&entries);
    assert_eq!(
        sorted,
        vec![
            b"00001.chunk".to_vec(),
            b"00002.chunk".to_vec(),
            b"00010.chunk".to_vec(),
        ]
    );
}

#[test]
fn session_round_trip_restores_the_buffer() {
    let mut buffer: BoardBuffer = ReplayBuffer::new(IdentityAugmenter::new(), 8);
    for reward in 1..=5 {
        buffer.store(
            board_with_value(2),
            Direction::Up,
            reward,
            board_with_value(4),
        );
    }
    let originals = buffer.transitions(0, 5);
    let chunks = TrainingSerializer::serialize_replay_buffer(&buffer);
    assert_eq!(chunks.len(), 1);
    assert_eq!(chunks[0].name, b"00001.chunk".to_vec());

    let mut hyperparameters = Hyperparameters::new();
    hyperparameters.replay_capacity = 8;
    let config = TrainingConfig::with(
        hyperparameters,
        ReplayBufferConfig::with(buffer.capacity(), buffer.size(), buffer.write_position()),
        TrainingInfo::with(3, 77),
    );
    let datas: Vec<Vec<u8>> = chunks.into_iter().map(|c| c.data).collect();
    let restored: BoardBuffer = TrainingDeserializer::deserialize_replay_buffer(
        &datas,
        &config,
        IdentityAugmenter::new(),
    )
    .expect("a serialized session restores");
    assert_eq!(restored.size(), 5);
    assert_eq!(restored.capacity(), 8);
    assert_eq!(restored.write_position(), 5);
    assert_eq!(restored.transitions(0, 5), originals);
}

#[test]
fn serializing_into_a_full_directory_is_refused() {
    let entries: Vec<Vec<u8>> = vec![b"leftover".to_vec()];
    assert!(!is_path_empty(&entries));
    let empty: Vec<Vec<u8>> = Vec::new();
    assert!(is_path_empty(&empty));
    assert_eq!(
        SessionSerializationError::PathNotEmpty,
        SessionSerializationError::PathNotEmpty
    );
}

#[test]
fn corrupt_chunks_are_rejected() {
    let datas: Vec<Vec<u8>> = vec![vec![1, 2, 3, 4]];
    let hyperparameters = Hyperparameters::new();
    let config = TrainingConfig::with(
        hyperparameters,
        ReplayBufferConfig::with(8, 1, 1),
        TrainingInfo::with(0, 0),
    );
    let restored: Result<BoardBuffer, _> = TrainingDeserializer::deserialize_replay_buffer(
        &datas,
        &config,
        IdentityAugmenter::new(),
    );
    assert!(restored.is_err());
}
