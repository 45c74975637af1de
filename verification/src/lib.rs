//! A verified core for a deep-Q-learning trainer on a tile-merging grid
//! puzzle: a prioritized-replay sum tree, a ring replay buffer, symmetry
//! data augmentation, the training-loop orchestration, and the chunked
//! session persistence format.
//!
//! Fractional quantities (priorities, rewards, epsilon, exponents and
//! importance weights) are fixed-point integers scaled by
//! [`fixed::FIXED_ONE`], so that every formula in the crate is exact and
//! machine-checked.

pub mod critic;
pub mod data_augmenter;
pub mod fixed;
pub mod game;
pub mod model;
pub mod random;
pub mod replay_buffer;
pub mod serialization;
pub mod state;
pub mod stats;
pub mod sum_tree;
pub mod trainer;
pub mod training;
pub mod training_batch;
