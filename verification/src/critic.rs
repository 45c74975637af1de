//! The scoring capability: an external judge that assigns each observed
//! step a fixed-point reward.

use vstd::prelude::*;

use crate::state::StateType;

verus! {

/// Scores one observed step of the domain.
pub trait CriticType: Sized {
    type State: StateType;

    /// The fixed-point reward for advancing from `state` to `next_state`
    /// by `action`.
    fn reward(
        &self,
        state: &Self::State,
        action: &<Self::State as StateType>::Action,
        next_state: &Self::State,
    ) -> i64;
}

} // verus!
