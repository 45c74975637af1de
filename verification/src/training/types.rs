//! The message vocabulary between the training worker and the
//! presentation layer: inbound commands and outbound events.

use vstd::prelude::*;

use crate::training::training_stats_recorder::TrainingStats;

verus! {

/// The worker's observable mode.
#[derive(Copy, Clone, PartialEq, Eq, Structural, Debug)]
pub enum TrainingState {
    Idle,
    Training,
}

/// The training state as the user interface displays it.
#[derive(Copy, Clone, PartialEq, Eq, Structural, Debug)]
pub enum UiTrainingState {
    Idle,
    Training,
}

/// A command sent to the training worker; acted on between epochs.
#[derive(Debug)]
pub enum TrainingAction {
    Start,
    Pause,
    SaveModel(String),
    LoadModel(String),
    SaveSession(String),
    LoadSession(String),
}

/// An event pushed by the training worker.
#[derive(Debug)]
pub enum TrainingMessage {
    StateChanged(TrainingState),
    EpochFinished(TrainingStats),
}

impl TrainingState {
    /// The display form of this state.
    pub fn as_ui_training_state(&self) -> (r: UiTrainingState)
        ensures
            r == (match self {
                TrainingState::Idle => UiTrainingState::Idle,
                TrainingState::Training => UiTrainingState::Training,
            }),
    {
        match self {
            TrainingState::Idle => UiTrainingState::Idle,
            TrainingState::Training => UiTrainingState::Training,
        }
    }
}

} // verus!
