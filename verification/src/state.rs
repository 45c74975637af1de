//! Capability interfaces for the game domain: a state that can report its
//! legal actions, advance, and flatten itself into numeric features, and
//! an action that maps to a dense index.

use vstd::prelude::*;

verus! {

/// An action of the domain, identified by a dense index.
pub trait ActionType: Sized {
    /// The dense index of this action.
    spec fn index_spec(&self) -> int;

    /// Returns the dense index of this action.
    fn index(&self) -> (i: usize)
        ensures
            i as int == self.index_spec(),
    ;

    /// An equivalent copy of this action.
    fn dup(&self) -> (a: Self)
        ensures
            a.index_spec() == self.index_spec(),
    ;
}

/// A state of the domain. A state is a value: copies are taken freely,
/// which the symmetry augmentation requires.
pub trait StateType: Sized {
    type Action: ActionType;

    /// Number of distinct actions of the domain.
    spec fn num_actions_spec() -> int;

    /// Length of the flattened feature encoding.
    spec fn num_features_spec() -> int;

    /// Whether this state ends an episode.
    spec fn is_terminal_spec(&self) -> bool;

    /// Whether the action with the given index is legal here.
    spec fn action_allowed(&self, idx: int) -> bool;

    /// The flattened feature encoding of this state.
    spec fn features_spec(&self) -> Seq<u32>;

    /// Returns the number of distinct actions.
    fn num_actions() -> (n: usize)
        ensures
            n as int == Self::num_actions_spec(),
    ;

    /// Returns the length of the feature encoding.
    fn num_features() -> (n: usize)
        ensures
            n as int == Self::num_features_spec(),
    ;

    /// A fresh starting state for a new episode.
    fn initial_state() -> Self;

    /// The actions that are legal from this state, each exactly once, in
    /// increasing index order.
    fn possible_actions(&self) -> (acts: Vec<Self::Action>)
        ensures
            forall|k: int|
                0 <= k < acts@.len() ==> 0 <= (#[trigger] acts@[k].index_spec())
                    < Self::num_actions_spec(),
            forall|i: int|
                0 <= i < Self::num_actions_spec() ==> ((#[trigger] self.action_allowed(i))
                    <==> (exists|k: int|
                    0 <= k < acts@.len() && (#[trigger] acts@[k].index_spec()) == i)),
            forall|k1: int, k2: int|
                0 <= k1 < k2 < acts@.len() ==> (#[trigger] acts@[k1].index_spec()) < (
                #[trigger] acts@[k2].index_spec()),
    ;

    /// The state reached by taking the given action here.
    fn advance(&self, action: &Self::Action) -> Self;

    /// Whether this state ends an episode.
    fn is_terminal(&self) -> (t: bool)
        ensures
            t == self.is_terminal_spec(),
    ;

    /// The flattened numeric features of this state.
    fn as_features(&self) -> (f: Vec<u32>)
        ensures
            f@ == self.features_spec(),
            f@.len() == Self::num_features_spec(),
    ;

    /// An observably equal copy of this state.
    fn duplicate(&self) -> (s: Self)
        ensures
            s.is_terminal_spec() == self.is_terminal_spec(),
            s.features_spec() == self.features_spec(),
            forall|i: int| (#[trigger] s.action_allowed(i)) == self.action_allowed(i),
    ;
}

} // verus!
