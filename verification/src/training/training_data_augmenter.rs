//! Symmetry augmentation for the square board: the eight elements of its
//! symmetry group (the identity, the horizontal mirror, and their
//! compositions with one, two and three quarter turns) turn one observed
//! step into eight equivalent transitions. Action indices are remapped
//! consistently with each transform; reward and terminal flag carry over
//! unchanged.

use vstd::prelude::*;

use crate::data_augmenter::DataAugmenterType;
use crate::game::board::{
    can_move_spec, is_over_spec, lemma_mirror_twice, lemma_rotate_four, mirror_spec, rotate_spec,
    Board, Direction, Tile,
};
use crate::game::game_rng::RealGameRng;
use crate::replay_buffer::{views_of, StateTransition, TransitionView};
use crate::state::{ActionType, StateType};
use crate::training::board_state::{board_features, dir_of_index};

verus! {

/// The direction that maps, under a horizontal mirror, to the given one.
pub open spec fn mirrored_dir(d: Direction) -> Direction {
    match d {
        Direction::Up => Direction::Up,
        Direction::Down => Direction::Down,
        Direction::Left => Direction::Right,
        Direction::Right => Direction::Left,
    }
}

/// The direction that a clockwise quarter turn carries the given one to.
pub open spec fn rotated_dir(d: Direction) -> Direction {
    match d {
        Direction::Up => Direction::Right,
        Direction::Down => Direction::Left,
        Direction::Left => Direction::Up,
        Direction::Right => Direction::Down,
    }
}

impl Direction {
    /// This direction under a horizontal mirror: left and right swap, up
    /// and down stay.
    pub fn mirrored_horizontally(&self) -> (r: Direction)
        ensures
            r == mirrored_dir(*self),
    {
        match self {
            Direction::Up => Direction::Up,
            Direction::Down => Direction::Down,
            Direction::Left => Direction::Right,
            Direction::Right => Direction::Left,
        }
    }

    /// This direction after a clockwise quarter turn: up, right, down and
    /// left cycle.
    pub fn rotated_cw(&self) -> (r: Direction)
        ensures
            r == rotated_dir(*self),
    {
        match self {
            Direction::Up => Direction::Right,
            Direction::Down => Direction::Left,
            Direction::Left => Direction::Up,
            Direction::Right => Direction::Down,
        }
    }
}

/// The transition a board step flattens into, expressed over board
/// contents alone.
pub open spec fn board_transition(t: Seq<Tile>, a: Direction, reward: i64, nt: Seq<Tile>)
    -> TransitionView {
    TransitionView {
        state: board_features(t),
        action: a.index_spec(),
        reward: reward as int,
        next_state: board_features(nt),
        invalid_actions_mask: Seq::new(
            4,
            |i: int| !(0 <= i < 4 && can_move_spec(nt, dir_of_index(i))),
        ),
        is_terminal: is_over_spec(nt),
    }
}

/// The augmenter for the symmetric board domain.
pub struct TrainingDataAugmenter {}

impl TrainingDataAugmenter {
    /// A fresh augmenter.
    pub fn new() -> TrainingDataAugmenter {
        TrainingDataAugmenter {  }
    }
}

impl Default for TrainingDataAugmenter {
    fn default() -> TrainingDataAugmenter {
        TrainingDataAugmenter {  }
    }
}

/// The eight symmetry-equivalent transitions of one observed step, in the
/// order they are stored: for each of zero to three quarter turns, the
/// rotated transition and then its horizontal mirror.
pub open spec fn symmetry_variants(t: Seq<Tile>, a: Direction, reward: i64, nt: Seq<Tile>)
    -> Seq<TransitionView> {
    let t1 = rotate_spec(t);
    let t2 = rotate_spec(t1);
    let t3 = rotate_spec(t2);
    let n1 = rotate_spec(nt);
    let n2 = rotate_spec(n1);
    let n3 = rotate_spec(n2);
    let a1 = rotated_dir(a);
    let a2 = rotated_dir(a1);
    let a3 = rotated_dir(a2);
    seq![
        board_transition(t, a, reward, nt),
        board_transition(mirror_spec(t), mirrored_dir(a), reward, mirror_spec(nt)),
        board_transition(t1, a1, reward, n1),
        board_transition(mirror_spec(t1), mirrored_dir(a1), reward, mirror_spec(n1)),
        board_transition(t2, a2, reward, n2),
        board_transition(mirror_spec(t2), mirrored_dir(a2), reward, mirror_spec(n2)),
        board_transition(t3, a3, reward, n3),
        board_transition(mirror_spec(t3), mirrored_dir(a3), reward, mirror_spec(n3)),
    ]
}

impl DataAugmenterType for TrainingDataAugmenter {
    type State = Board<RealGameRng>;

    open spec fn augment_spec(
        &self,
        state: Board<RealGameRng>,
        action: Direction,
        reward: i64,
        next_state: Board<RealGameRng>,
    ) -> Seq<TransitionView> {
        symmetry_variants(state@, action, reward, next_state@)
    }

    fn augment(
        &self,
        state: Board<RealGameRng>,
        action: Direction,
        reward: i64,
        next_state: Board<RealGameRng>,
    ) -> (ts: Vec<StateTransition>) {
        let mut ts: Vec<StateTransition> = Vec::new();
        let a0 = action;
        let a1 = a0.rotated_cw();
        let a2 = a1.rotated_cw();
        let a3 = a2.rotated_cw();
        let s1 = state.rotated_cw();
        let s2 = s1.rotated_cw();
        let s3 = s2.rotated_cw();
        let n1 = next_state.rotated_cw();
        let n2 = n1.rotated_cw();
        let n3 = n2.rotated_cw();
        ts.push(
            StateTransition::new(state.duplicate(), a0, reward, next_state.duplicate()),
        );
        ts.push(
            StateTransition::new(
                state.mirrored_horizontally(),
                a0.mirrored_horizontally(),
                reward,
                next_state.mirrored_horizontally(),
            ),
        );
        ts.push(StateTransition::new(s1.duplicate(), a1, reward, n1.duplicate()));
        ts.push(
            StateTransition::new(
                s1.mirrored_horizontally(),
                a1.mirrored_horizontally(),
                reward,
                n1.mirrored_horizontally(),
            ),
        );
        ts.push(StateTransition::new(s2.duplicate(), a2, reward, n2.duplicate()));
        ts.push(
            StateTransition::new(
                s2.mirrored_horizontally(),
                a2.mirrored_horizontally(),
                reward,
                n2.mirrored_horizontally(),
            ),
        );
        ts.push(StateTransition::new(s3.duplicate(), a3, reward, n3.duplicate()));
        ts.push(
            StateTransition::new(
                s3.mirrored_horizontally(),
                a3.mirrored_horizontally(),
                reward,
                n3.mirrored_horizontally(),
            ),
        );
        proof {
            let spec_ts = symmetry_variants(state@, action, reward, next_state@);
            lemma_board_transitions_all(reward);
            assert(ts@[0]@ == spec_ts[0]);
            assert(ts@[1]@ == spec_ts[1]);
            assert(ts@[2]@ == spec_ts[2]);
            assert(ts@[3]@ == spec_ts[3]);
            assert(ts@[4]@ == spec_ts[4]);
            assert(ts@[5]@ == spec_ts[5]);
            assert(ts@[6]@ == spec_ts[6]);
            assert(ts@[7]@ == spec_ts[7]);
            assert(views_of(ts@) =~= spec_ts);
        }
        ts
    }
}

/// Flattening a board step through the state interface gives exactly the
/// content-level transition.
pub proof fn lemma_board_transitions_all(reward: i64)
    ensures
        forall|b: Board<RealGameRng>, d: Direction, nb: Board<RealGameRng>|
            (#[trigger] crate::replay_buffer::transition_of(b, d, reward, nb))
                == board_transition(b@, d, reward, nb@),
{
    assert forall|b: Board<RealGameRng>, d: Direction, nb: Board<RealGameRng>|
        (#[trigger] crate::replay_buffer::transition_of(b, d, reward, nb)) == board_transition(
        b@,
        d,
        reward,
        nb@,
    ) by {
        let lhs = crate::replay_buffer::transition_of(b, d, reward, nb);
        let rhs = board_transition(b@, d, reward, nb@);
        assert(lhs.invalid_actions_mask =~= rhs.invalid_actions_mask);
    }
}

/// Mirroring leaves being-over unchanged.
pub proof fn lemma_is_over_mirror(t: Seq<Tile>)
    requires
        t.len() == 16,
    ensures
        is_over_spec(mirror_spec(t)) == is_over_spec(t),
{
    lemma_mirror_twice(t);
    if is_over_spec(t) {
        lemma_is_over_mirror_fwd(t);
    }
    if is_over_spec(mirror_spec(t)) {
        lemma_is_over_mirror_fwd(mirror_spec(t));
    }
}

/// A quarter turn leaves being-over unchanged.
pub proof fn lemma_is_over_rotate(t: Seq<Tile>)
    requires
        t.len() == 16,
    ensures
        is_over_spec(rotate_spec(t)) == is_over_spec(t),
{
    let t1 = rotate_spec(t);
    let t2 = rotate_spec(t1);
    let t3 = rotate_spec(t2);
    lemma_rotate_four(t);
    if is_over_spec(t) {
        lemma_is_over_rotate_fwd(t);
    }
    if is_over_spec(t1) {
        lemma_is_over_rotate_fwd(t1);
        lemma_is_over_rotate_fwd(t2);
        lemma_is_over_rotate_fwd(t3);
    }
}

/// One direction of the mirror invariance.
proof fn lemma_is_over_mirror_fwd(t: Seq<Tile>)
    requires
        t.len() == 16,
        is_over_spec(t),
    ensures
        is_over_spec(mirror_spec(t)),
{
    let m = mirror_spec(t);
    assert forall|i: int| 0 <= i < 16 implies (#[trigger] m[i]) != Tile::Empty by {
        assert(t[4 * (i / 4) + 3 - i % 4] != Tile::Empty);
    }
    assert forall|i: int| 0 <= i < 16 && i % 4 < 3 implies (#[trigger] m[i]) != m[i + 1] by {
        let j = 4 * (i / 4) + 2 - i % 4;
        assert((i + 1) / 4 == i / 4 && (i + 1) % 4 == i % 4 + 1);
        assert(m[i] == t[j + 1]);
        assert(m[i + 1] == t[j]);
        assert(t[j] != t[j + 1]);
    }
    assert forall|i: int| 0 <= i < 12 implies (#[trigger] m[i]) != m[i + 4] by {
        let j = 4 * (i / 4) + 3 - i % 4;
        assert((i + 4) / 4 == i / 4 + 1 && (i + 4) % 4 == i % 4);
        assert(m[i] == t[j]);
        assert(m[i + 4] == t[j + 4]);
        assert(t[j] != t[j + 4]);
    }
}

/// One direction of the rotation invariance.
#[verifier::rlimit(60)]
proof fn lemma_is_over_rotate_fwd(t: Seq<Tile>)
    requires
        t.len() == 16,
        is_over_spec(t),
    ensures
        is_over_spec(rotate_spec(t)),
{
    let m = rotate_spec(t);
    assert forall|i: int| 0 <= i < 16 implies (#[trigger] m[i]) != Tile::Empty by {
        assert(t[4 * (3 - i % 4) + i / 4] != Tile::Empty);
    }
    assert forall|i: int| 0 <= i < 16 && i % 4 < 3 implies (#[trigger] m[i]) != m[i + 1] by {
        let g = 4 * (3 - i % 4) + i / 4;
        assert((i + 1) / 4 == i / 4 && (i + 1) % 4 == i % 4 + 1);
        assert(m[i] == t[g]);
        assert(m[i + 1] == t[g - 4]);
        assert(t[g - 4] != t[g]);
    }
    assert forall|i: int| 0 <= i < 12 implies (#[trigger] m[i]) != m[i + 4] by {
        let g = 4 * (3 - i % 4) + i / 4;
        assert((i + 4) / 4 == i / 4 + 1 && (i + 4) % 4 == i % 4);
        assert(m[i] == t[g]);
        assert(m[i + 4] == t[g + 1]);
        assert(g % 4 == i / 4);
        assert(t[g] != t[g + 1]);
    }
}

/// Augmenting one step yields exactly eight transitions that all carry
/// the step's reward and the step's terminal flag.
pub proof fn lemma_augment_shared_outcome(t: Seq<Tile>, a: Direction, reward: i64, nt: Seq<Tile>)
    requires
        t.len() == 16,
        nt.len() == 16,
    ensures
        symmetry_variants(t, a, reward, nt).len() == 8,
        forall|k: int|
            0 <= k < 8 ==> (#[trigger] symmetry_variants(t, a, reward, nt)[k]).reward
                == reward as int,
        forall|k: int|
            0 <= k < 8 ==> (#[trigger] symmetry_variants(t, a, reward, nt)[k]).is_terminal
                == is_over_spec(nt),
{
    let n1 = rotate_spec(nt);
    let n2 = rotate_spec(n1);
    let n3 = rotate_spec(n2);
    lemma_is_over_rotate(nt);
    lemma_is_over_rotate(n1);
    lemma_is_over_rotate(n2);
    lemma_is_over_mirror(nt);
    lemma_is_over_mirror(n1);
    lemma_is_over_mirror(n2);
    lemma_is_over_mirror(n3);
    assert forall|k: int|
        0 <= k < 8 implies (#[trigger] symmetry_variants(t, a, reward, nt)[k]).is_terminal
        == is_over_spec(nt) by {
        let vs = symmetry_variants(t, a, reward, nt);
        assert(vs[0].is_terminal == is_over_spec(nt));
        assert(vs[1].is_terminal == is_over_spec(mirror_spec(nt)));
        assert(vs[2].is_terminal == is_over_spec(n1));
        assert(vs[3].is_terminal == is_over_spec(mirror_spec(n1)));
        assert(vs[4].is_terminal == is_over_spec(n2));
        assert(vs[5].is_terminal == is_over_spec(mirror_spec(n2)));
        assert(vs[6].is_terminal == is_over_spec(n3));
        assert(vs[7].is_terminal == is_over_spec(mirror_spec(n3)));
    }
}

} // verus!
