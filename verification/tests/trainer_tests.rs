use tile_dqn::game::board::Board;
use tile_dqn::game::game_rng::RealGameRng;
use tile_dqn::model::Model;
use tile_dqn::trainer::{check_hyperparameters, compute_td_targets, Hyperparameters, Trainer};
use tile_dqn::training::training_critic::TrainingCritic;
use tile_dqn::training::training_data_augmenter::TrainingDataAugmenter;
use tile_dqn::training::training_stats_recorder::TrainingStatsRecorder;
use tile_dqn::training::types::{TrainingState, UiTrainingState};

/// A stand-in numeric model: every value is zero and a gradient step
/// changes nothing. It exercises the orchestration without a tensor
/// library.
struct FlatModel {}

impl Model for FlatModel {
    fn forward(&self, _states: &Vec<u32>, num_rows: usize, num_outputs: usize) -> Vec<i64> {
        vec![0; num_rows * num_outputs]
    }

    fn clone_model(&self) -> FlatModel {
        FlatModel {}
    }

    fn apply_gradient_step(self, _weighted_losses: &Vec<i64>, _learning_rate: u64) -> FlatModel {
        self
    }
}

type BoardTrainer = Trainer<
    FlatModel,
    Board<RealGameRng>,
    TrainingCritic,
    TrainingStatsRecorder,
    TrainingDataAugmenter,
>;

fn small_config() -> Hyperparameters {
    let mut config = Hyperparameters::new();
    config.batch_size = 4;
    config.replay_capacity = 64;
    config.training_frequency = 2;
    config.network_sync_frequency = 8;
    config.max_episode_frames = 200;
    assert!(check_hyperparameters(&config));
    config
}

#[test]
fn one_epoch_advances_the_counters() {
    let mut trainer: BoardTrainer = Trainer::new(
        small_config(),
        TrainingCritic::new(),
        TrainingDataAugmenter::new(),
        TrainingStatsRecorder::default(),
    );
    assert_eq!(trainer.epoch_number(), 0);
    assert_eq!(trainer.frame_number(), 0);
    let (_model, stats) = trainer.run_epoch(FlatModel {});
    assert_eq!(trainer.epoch_number(), 1);
    assert!(trainer.frame_number() >= 1);
    assert!(trainer.frame_number() <= 200);
    assert_eq!(stats.epochs, 1);
    // Every step stores eight symmetry variants.
    assert_eq!(stats.replay_buffer_size % 8, 0);
    assert!(stats.replay_buffer_size >= 8);
    assert!(stats.epsilon > 0);
}

#[test]
fn epochs_accumulate_across_runs() {
    let mut trainer: BoardTrainer = Trainer::new(
        small_config(),
        TrainingCritic::new(),
        TrainingDataAugmenter::new(),
        TrainingStatsRecorder::default(),
    );
    let (model, _stats) = trainer.run_epoch(FlatModel {});
    let (_model, stats) = trainer.run_epoch(model);
    assert_eq!(trainer.epoch_number(), 2);
    assert_eq!(stats.epochs, 2);
}

#[test]
fn bootstrap_targets_mask_invalid_actions() {
    // Two samples, two actions each: valid successor values bootstrap,
    // terminal samples and fully masked samples do not.
    let rewards: Vec<i64> = vec![1000, 2000, 3000];
    let terminal: Vec<bool> = vec![false, true, false];
    let next_q: Vec<i64> = vec![65536, 9999, 65536, 9999, 65536, 9999];
    let mask: Vec<bool> = vec![
        true, false,  // only the second action is valid
        false, false, // terminal: values are ignored
        true, true,   // nothing is valid: no bootstrap
    ];
    // The discount is one half in fixed point.
    let targets = compute_td_targets(&rewards, &terminal, &next_q, &mask, 2, 32768);
    assert_eq!(targets, vec![1000 + 9999 / 2, 2000, 3000]);
}

#[test]
fn training_state_maps_to_its_display_form() {
    assert_eq!(
        TrainingState::Idle.as_ui_training_state(),
        UiTrainingState::Idle
    );
    assert_eq!(
        TrainingState::Training.as_ui_training_state(),
        UiTrainingState::Training
    );
}

#[test]
fn default_hyperparameters_are_well_formed() {
    let config = Hyperparameters::new();
    assert!(check_hyperparameters(&config));
    assert_eq!(config.batch_size, 32);
    assert_eq!(config.replay_capacity, 16384);
}
