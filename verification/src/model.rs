//! The numeric-model capability. Forward evaluation, gradients and the
//! optimizer live behind this boundary; the core never inspects weights.

use vstd::prelude::*;

verus! {

/// A value-function model over fixed-point numbers: evaluates batches of
/// feature rows, clones itself for target-network snapshots, and applies
/// one optimizer step from a weighted loss.
pub trait Model: Sized {
    /// Evaluates `num_rows` feature rows and returns `num_outputs`
    /// fixed-point values per row, flattened row by row.
    fn forward(&self, states: &Vec<u32>, num_rows: usize, num_outputs: usize) -> (q: Vec<i64>)
        ensures
            q@.len() == num_rows * num_outputs,
    ;

    /// A deep copy, taken for the target network.
    fn clone_model(&self) -> Self;

    /// One optimizer step from the given per-sample weighted losses.
    fn apply_gradient_step(self, weighted_losses: &Vec<i64>, learning_rate: u64) -> Self;
}

} // verus!
