//! Per-epoch statistics of a board training run.

use vstd::prelude::*;

use crate::fixed::{clamp_i64_spec, sat_add_i64};
use crate::game::board::{max_tile, Board};
use crate::game::game_rng::RealGameRng;
use crate::stats::StatsRecorderType;

verus! {

/// One epoch's readings: epoch count, summed fixed-point rewards, the
/// final score, the best tile reached, the buffer occupancy and the
/// fixed-point exploration rate.
#[derive(Clone, PartialEq, Debug)]
pub struct TrainingStats {
    pub epochs: usize,
    pub cumulated_epoch_rewards: i64,
    pub last_epoch_score: u32,
    pub best_tile: u32,
    pub replay_buffer_size: usize,
    pub epsilon: u64,
}

/// Accumulates the generic training signals for the board domain.
pub struct TrainingStatsRecorder {
    epoch_number: usize,
    reward_accumulator: i64,
    last_epoch_score: u32,
    best_tile: u32,
    replay_buffer_size: usize,
    epsilon: u64,
}

impl Default for TrainingStatsRecorder {
    /// A recorder with every accumulator at zero.
    fn default() -> (r: TrainingStatsRecorder)
        ensures
            r.epoch_number_spec() == 0,
    {
        TrainingStatsRecorder {
            epoch_number: 0,
            reward_accumulator: 0,
            last_epoch_score: 0,
            best_tile: 0,
            replay_buffer_size: 0,
            epsilon: 0,
        }
    }
}

impl TrainingStatsRecorder {
    /// Number of epochs seen so far.
    pub closed spec fn epoch_number_spec(&self) -> int {
        self.epoch_number as int
    }

    /// Sum of the rewards recorded this epoch.
    pub closed spec fn reward_sum_spec(&self) -> i64 {
        self.reward_accumulator
    }

    /// The last recorded final score.
    pub closed spec fn last_score_spec(&self) -> u32 {
        self.last_epoch_score
    }

    /// The last recorded best tile.
    pub closed spec fn best_tile_spec(&self) -> u32 {
        self.best_tile
    }

    /// The last recorded buffer occupancy.
    pub closed spec fn buffer_size_spec(&self) -> int {
        self.replay_buffer_size as int
    }

    /// The last recorded exploration rate.
    pub closed spec fn epsilon_recorded_spec(&self) -> u64 {
        self.epsilon
    }
}

impl StatsRecorderType for TrainingStatsRecorder {
    type Stats = TrainingStats;

    type State = Board<RealGameRng>;

    /// Counts the epoch (saturating at the counter's limit) and resets
    /// the per-epoch readings.
    fn record_new_epoch(&mut self)
        ensures
            final(self).epoch_number_spec() == (if old(self).epoch_number_spec() < usize::MAX {
                old(self).epoch_number_spec() + 1
            } else {
                old(self).epoch_number_spec()
            }),
            final(self).reward_sum_spec() == 0,
            final(self).last_score_spec() == 0,
            final(self).best_tile_spec() == 0,
            final(self).epsilon_recorded_spec() == 0,
            final(self).buffer_size_spec() == old(self).buffer_size_spec(),
    {
        self.epoch_number = self.epoch_number.saturating_add(1);
        self.reward_accumulator = 0;
        self.last_epoch_score = 0;
        self.best_tile = 0;
        self.epsilon = 0;
    }

    /// Accumulates one reward, saturating at the signed bounds.
    fn record_reward(&mut self, reward: i64)
        ensures
            final(self).reward_sum_spec() == clamp_i64_spec(
                old(self).reward_sum_spec() + reward,
            ),
            final(self).epoch_number_spec() == old(self).epoch_number_spec(),
            final(self).last_score_spec() == old(self).last_score_spec(),
            final(self).best_tile_spec() == old(self).best_tile_spec(),
            final(self).buffer_size_spec() == old(self).buffer_size_spec(),
            final(self).epsilon_recorded_spec() == old(self).epsilon_recorded_spec(),
    {
        self.reward_accumulator = sat_add_i64(self.reward_accumulator, reward);
    }

    /// Records the episode's final score and best tile.
    fn record_final_state(&mut self, state: &Board<RealGameRng>)
        ensures
            final(self).last_score_spec() == state.score_spec(),
            final(self).best_tile_spec() == max_tile(state@),
            final(self).epoch_number_spec() == old(self).epoch_number_spec(),
            final(self).reward_sum_spec() == old(self).reward_sum_spec(),
            final(self).buffer_size_spec() == old(self).buffer_size_spec(),
            final(self).epsilon_recorded_spec() == old(self).epsilon_recorded_spec(),
    {
        self.last_epoch_score = state.score();
        self.best_tile = state.max_tile_value();
    }

    /// Records the buffer occupancy.
    fn record_replay_buffer_size(&mut self, size: usize)
        ensures
            final(self).buffer_size_spec() == size as int,
            final(self).epoch_number_spec() == old(self).epoch_number_spec(),
            final(self).reward_sum_spec() == old(self).reward_sum_spec(),
            final(self).last_score_spec() == old(self).last_score_spec(),
            final(self).best_tile_spec() == old(self).best_tile_spec(),
            final(self).epsilon_recorded_spec() == old(self).epsilon_recorded_spec(),
    {
        self.replay_buffer_size = size;
    }

    /// Records the exploration rate.
    fn record_epsilon(&mut self, epsilon: u64)
        ensures
            final(self).epsilon_recorded_spec() == epsilon,
            final(self).epoch_number_spec() == old(self).epoch_number_spec(),
            final(self).reward_sum_spec() == old(self).reward_sum_spec(),
            final(self).last_score_spec() == old(self).last_score_spec(),
            final(self).best_tile_spec() == old(self).best_tile_spec(),
            final(self).buffer_size_spec() == old(self).buffer_size_spec(),
    {
        self.epsilon = epsilon;
    }

    /// Bundles the accumulated readings.
    fn stats(&self) -> (r: TrainingStats)
        ensures
            r.epochs as int == self.epoch_number_spec(),
            r.cumulated_epoch_rewards == self.reward_sum_spec(),
            r.last_epoch_score == self.last_score_spec(),
            r.best_tile == self.best_tile_spec(),
            r.replay_buffer_size as int == self.buffer_size_spec(),
            r.epsilon == self.epsilon_recorded_spec(),
    {
        TrainingStats {
            epochs: self.epoch_number,
            cumulated_epoch_rewards: self.reward_accumulator,
            last_epoch_score: self.last_epoch_score,
            best_tile: self.best_tile,
            replay_buffer_size: self.replay_buffer_size,
            epsilon: self.epsilon,
        }
    }
}

} // verus!
