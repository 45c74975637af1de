//! The statistics-recording capability: the trainer reports generic
//! signals; a domain recorder turns them into whatever statistics the
//! presentation layer wants.

use vstd::prelude::*;

use crate::state::StateType;

verus! {

/// Receives the generic signals of a training run: epoch boundaries,
/// rewards, the final state of an episode, the buffer fill and the
/// exploration rate.
pub trait StatsRecorderType: Sized {
    type Stats;

    type State: StateType;

    /// A new epoch begins: per-epoch accumulators reset.
    fn record_new_epoch(&mut self);

    /// One step's fixed-point reward.
    fn record_reward(&mut self, reward: i64);

    /// The state an episode ended in.
    fn record_final_state(&mut self, state: &Self::State);

    /// The replay buffer's occupancy after an epoch.
    fn record_replay_buffer_size(&mut self, size: usize);

    /// The fixed-point exploration rate used this epoch.
    fn record_epsilon(&mut self, epsilon: u64);

    /// The accumulated statistics.
    fn stats(&self) -> Self::Stats;
}

} // verus!
