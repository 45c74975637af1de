//! The critic of the board domain: a fixed-point reward that penalizes
//! losing, pays for score gains on a logarithmic scale, and pays for
//! keeping cells empty.

use vstd::prelude::*;

use crate::critic::CriticType;
use crate::game::board::{count_empty, is_over_spec, Board, Direction, Tile};
use crate::game::game_rng::RealGameRng;
use crate::training::board_state::{log2_floor, log2_floor_exec};

verus! {

/// The reward for reaching `next` (with board contents `nt`) from a state
/// with score `prev_score`: minus ten for a lost game; otherwise a tenth
/// of the gained score's base-two logarithm, plus one sixteenth per empty
/// cell. All terms are fixed-point.
pub open spec fn reward_spec(prev_score: u32, nt: Seq<Tile>, next_score: u32) -> int {
    if is_over_spec(nt) {
        -655360
    } else {
        let gain: int = if next_score >= prev_score {
            next_score - prev_score
        } else {
            0
        };
        let score_term: int = if gain >= 1 {
            (log2_floor(gain as nat) * 65536) as int / 10
        } else {
            0
        };
        let empty_term: int = count_empty(nt) * 65536 / 16;
        score_term + empty_term
    }
}

/// The critic of the board domain.
pub struct TrainingCritic {}

impl TrainingCritic {
    /// A fresh critic.
    pub fn new() -> TrainingCritic {
        TrainingCritic {  }
    }

    /// Computes the fixed-point reward of one step.
    pub fn reward_value(&self, state: &Board<RealGameRng>, next_state: &Board<RealGameRng>) -> (r:
        i64)
        ensures
            r == reward_spec(state.score_spec(), next_state@, next_state.score_spec()),
    {
        if next_state.is_over() {
            return -655360;
        }
        let gain = next_state.score().saturating_sub(state.score());
        let score_term: u64 = if gain >= 1 {
            (log2_floor_exec(gain) as u64 * 65536) / 10
        } else {
            0
        };
        let empty = next_state.num_empty_tiles();
        let empty_term: u64 = (empty as u64 * 65536) / 16;
        (score_term + empty_term) as i64
    }
}

impl Default for TrainingCritic {
    fn default() -> TrainingCritic {
        TrainingCritic {  }
    }
}

impl CriticType for TrainingCritic {
    type State = Board<RealGameRng>;

    fn reward(
        &self,
        state: &Board<RealGameRng>,
        _action: &Direction,
        next_state: &Board<RealGameRng>,
    ) -> i64 {
        self.reward_value(state, next_state)
    }
}

/// No board has more empty cells than cells.
pub proof fn lemma_count_empty_le(t: Seq<Tile>)
    ensures
        0 <= count_empty(t) <= t.len(),
    decreases t.len(),
{
    if t.len() > 0 {
        lemma_count_empty_le(t.drop_last());
    }
}

} // verus!
