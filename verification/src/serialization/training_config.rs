//! The session document's contents: hyperparameters, replay-buffer
//! geometry and progress counters.

use vstd::prelude::*;

use crate::trainer::Hyperparameters;

verus! {

/// The replay buffer's persisted geometry.
#[derive(Copy, Clone, PartialEq, Eq, Structural, Debug)]
pub struct ReplayBufferConfig {
    pub capacity: usize,
    pub size: usize,
    pub write_position: usize,
}

impl ReplayBufferConfig {
    /// Bundles the given geometry.
    pub fn with(capacity: usize, size: usize, write_position: usize) -> (r: ReplayBufferConfig)
        ensures
            r.capacity == capacity,
            r.size == size,
            r.write_position == write_position,
    {
        ReplayBufferConfig { capacity, size, write_position }
    }
}

/// The persisted progress counters.
#[derive(Copy, Clone, PartialEq, Eq, Structural, Debug)]
pub struct TrainingInfo {
    pub epoch_number: usize,
    pub frame_number: usize,
}

impl TrainingInfo {
    /// Bundles the given counters.
    pub fn with(epoch_number: usize, frame_number: usize) -> (r: TrainingInfo)
        ensures
            r.epoch_number == epoch_number,
            r.frame_number == frame_number,
    {
        TrainingInfo { epoch_number, frame_number }
    }
}

/// Everything the session document holds.
#[derive(Copy, Clone, PartialEq, Eq, Structural, Debug)]
pub struct TrainingConfig {
    pub hyperparameters: Hyperparameters,
    pub replay_buffer: ReplayBufferConfig,
    pub training_info: TrainingInfo,
}

impl TrainingConfig {
    /// Bundles the given parts.
    pub fn with(
        hyperparameters: Hyperparameters,
        replay_buffer_config: ReplayBufferConfig,
        training_info: TrainingInfo,
    ) -> (r: TrainingConfig)
        ensures
            r.hyperparameters == hyperparameters,
            r.replay_buffer == replay_buffer_config,
            r.training_info == training_info,
    {
        TrainingConfig { hyperparameters, replay_buffer: replay_buffer_config, training_info }
    }
}

} // verus!
