//! Expansion of one observed step into several equivalent transitions
//! before storage.

use vstd::prelude::*;

use crate::replay_buffer::{transition_of, views_of, StateTransition, TransitionView};
use crate::state::{ActionType, StateType};

verus! {

/// A capability that expands one observed step into one or more
/// transitions to store, multiplying sample efficiency.
pub trait DataAugmenterType: Sized {
    type State: StateType;

    /// The transitions that one observed step expands into.
    spec fn augment_spec(
        &self,
        state: Self::State,
        action: <Self::State as StateType>::Action,
        reward: i64,
        next_state: Self::State,
    ) -> Seq<TransitionView>;

    /// Expands one observed step.
    fn augment(
        &self,
        state: Self::State,
        action: <Self::State as StateType>::Action,
        reward: i64,
        next_state: Self::State,
    ) -> (ts: Vec<StateTransition>)
        requires
            0 <= action.index_spec() < <Self::State as StateType>::num_actions_spec(),
        ensures
            views_of(ts@) == self.augment_spec(state, action, reward, next_state),
            ts@.len() >= 1,
            forall|k: int|
                0 <= k < ts@.len() ==> (#[trigger] ts@[k]@).valid(
                    <Self::State as StateType>::num_actions_spec(),
                    <Self::State as StateType>::num_features_spec(),
                ),
    ;
}

/// The trivial augmenter: each observed step becomes exactly the one
/// transition it flattens into.
pub struct IdentityAugmenter<S: StateType> {
    marker: core::marker::PhantomData<S>,
}

impl<S: StateType> IdentityAugmenter<S> {
    /// A fresh trivial augmenter.
    pub fn new() -> (r: IdentityAugmenter<S>) {
        IdentityAugmenter { marker: core::marker::PhantomData }
    }
}

impl<S: StateType> DataAugmenterType for IdentityAugmenter<S> {
    type State = S;

    open spec fn augment_spec(
        &self,
        state: S,
        action: S::Action,
        reward: i64,
        next_state: S,
    ) -> Seq<TransitionView> {
        seq![transition_of(state, action, reward, next_state)]
    }

    fn augment(&self, state: S, action: S::Action, reward: i64, next_state: S) -> (ts: Vec<
        StateTransition,
    >) {
        let t = StateTransition::new(state, action, reward, next_state);
        let mut ts: Vec<StateTransition> = Vec::new();
        ts.push(t);
        proof {
            assert(views_of(ts@) =~= seq![transition_of(state, action, reward, next_state)]);
        }
        ts
    }
}

} // verus!
