//! The concrete training domain: the board as a reinforcement-learning
//! state, its symmetry augmentation, its critic, its statistics, and the
//! worker-thread message vocabulary.

pub mod board_state;
pub mod training_critic;
pub mod training_data_augmenter;
pub mod training_stats_recorder;
pub mod types;
