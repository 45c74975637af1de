//! Prioritized replay storage: a ring buffer of flattened transitions
//! paired slot-for-slot with a [`SumTree`] of fixed-point priorities.
//!
//! New entries inherit the largest priority ever assigned, so each gets at
//! least one sampling opportunity before its true error is known. Sampling
//! is stratified and proportional: the priority mass is split into equal
//! segments, one uniform draw per segment. Importance weights are returned
//! already normalized by the batch maximum: dividing
//! `(p_i / total * n)^(-beta)` by the batch maximum
//! `(p_min / total * n)^(-beta)` leaves `(p_min / p_i)^beta`, so the
//! largest weight in every batch is exactly one.

use vstd::prelude::*;

use crate::data_augmenter::DataAugmenterType;
use crate::fixed::{abs_i64_spec, abs_i64, fpow, fpow_spec, lemma_fpow_bounds, FIXED_ONE};
use crate::random::random_u64_below;
use crate::state::{ActionType, StateType};
use crate::sum_tree::{
    is_pow_2, lemma_range_sum_lower, lemma_range_sum_split, lemma_range_sum_upper, prefix_sum,
    range_sum, SumTree, CAPACITY_LIMIT,
};

verus! {

/// The mathematical content of one stored transition.
pub ghost struct TransitionView {
    pub state: Seq<u32>,
    pub action: int,
    pub reward: int,
    pub next_state: Seq<u32>,
    pub invalid_actions_mask: Seq<bool>,
    pub is_terminal: bool,
}

impl TransitionView {
    /// Shape constraints of a transition for a domain with the given
    /// action and feature counts.
    pub open spec fn valid(self, num_actions: int, num_features: int) -> bool {
        &&& self.state.len() == num_features
        &&& self.next_state.len() == num_features
        &&& self.invalid_actions_mask.len() == num_actions
        &&& 0 <= self.action < num_actions
    }
}

/// One observed step, flattened into plain numbers: feature encodings of
/// the two states, the action index, the fixed-point reward, the mask of
/// actions that are illegal from the successor state, and whether the
/// successor ends the episode.
#[derive(Clone, PartialEq, Debug)]
pub struct StateTransition {
    pub state: Vec<u32>,
    pub action: usize,
    pub reward: i64,
    pub next_state: Vec<u32>,
    pub invalid_actions_mask: Vec<bool>,
    pub is_terminal: bool,
}

impl View for StateTransition {
    type V = TransitionView;

    open spec fn view(&self) -> TransitionView {
        TransitionView {
            state: self.state@,
            action: self.action as int,
            reward: self.reward as int,
            next_state: self.next_state@,
            invalid_actions_mask: self.invalid_actions_mask@,
            is_terminal: self.is_terminal,
        }
    }
}

/// The transition that one observed step flattens into.
pub open spec fn transition_of<S: StateType>(
    state: S,
    action: S::Action,
    reward: i64,
    next_state: S,
) -> TransitionView {
    TransitionView {
        state: state.features_spec(),
        action: action.index_spec(),
        reward: reward as int,
        next_state: next_state.features_spec(),
        invalid_actions_mask: Seq::new(
            S::num_actions_spec() as nat,
            |i: int| !next_state.action_allowed(i),
        ),
        is_terminal: next_state.is_terminal_spec(),
    }
}

/// The views of a sequence of transitions.
pub open spec fn views_of(ts: Seq<StateTransition>) -> Seq<TransitionView> {
    Seq::new(ts.len(), |i: int| ts[i]@)
}

/// Copies a vector of feature values.
fn clone_u32_vec(v: &Vec<u32>) -> (r: Vec<u32>)
    ensures
        r@ == v@,
{
    let mut r: Vec<u32> = Vec::new();
    let mut i: usize = 0;
    while i < v.len()
        invariant
            i <= v@.len(),
            r@ == v@.subrange(0, i as int),
        decreases v@.len() - i,
    {
        r.push(v[i]);
        i = i + 1;
    }
    proof {
        assert(r@ =~= v@);
    }
    r
}

/// Copies a mask vector.
fn clone_bool_vec(v: &Vec<bool>) -> (r: Vec<bool>)
    ensures
        r@ == v@,
{
    let mut r: Vec<bool> = Vec::new();
    let mut i: usize = 0;
    while i < v.len()
        invariant
            i <= v@.len(),
            r@ == v@.subrange(0, i as int),
        decreases v@.len() - i,
    {
        r.push(v[i]);
        i = i + 1;
    }
    proof {
        assert(r@ =~= v@);
    }
    r
}

impl StateTransition {
    /// Flattens one observed step: encodes both states, records the action
    /// index and reward, marks every action that is illegal from the
    /// successor state, and notes whether the episode ended.
    pub fn new<S: StateType>(state: S, action: S::Action, reward: i64, next_state: S) -> (t:
        StateTransition)
        requires
            0 <= action.index_spec() < S::num_actions_spec(),
        ensures
            t@ == transition_of(state, action, reward, next_state),
            t@.valid(S::num_actions_spec(), S::num_features_spec()),
    {
        let na = S::num_actions();
        let mut invalid_actions: Vec<bool> = Vec::new();
        let mut i: usize = 0;
        while i < na
            invariant
                i <= na,
                invalid_actions@.len() == i,
                forall|m: int| 0 <= m < i ==> #[trigger] invalid_actions@[m] == true,
            decreases na - i,
        {
            invalid_actions.push(true);
            i = i + 1;
        }
        let acts = next_state.possible_actions();
        let mut k: usize = 0;
        while k < acts.len()
            invariant
                na as int == S::num_actions_spec(),
                k <= acts@.len(),
                invalid_actions@.len() == na,
                forall|m: int|
                    0 <= m < acts@.len() ==> 0 <= (#[trigger] acts@[m].index_spec())
                        < S::num_actions_spec(),
                forall|i2: int|
                    0 <= i2 < na ==> #[trigger] invalid_actions@[i2] == !(exists|m: int|
                        0 <= m < k && (#[trigger] acts@[m].index_spec()) == i2),
            decreases acts@.len() - k,
        {
            let idx = acts[k].index();
            invalid_actions.set(idx, false);
            k = k + 1;
        }
        proof {
            assert forall|i2: int| 0 <= i2 < S::num_actions_spec() implies #[trigger] invalid_actions@[i2]
                == !next_state.action_allowed(i2) by {
            }
        }
        let is_term = next_state.is_terminal();
        let t = StateTransition {
            state: state.as_features(),
            action: action.index(),
            reward,
            next_state: next_state.as_features(),
            invalid_actions_mask: invalid_actions,
            is_terminal: is_term,
        };
        proof {
            assert(t@.invalid_actions_mask =~= transition_of(state, action, reward, next_state)
                .invalid_actions_mask);
        }
        t
    }

    /// A copy with the same mathematical content.
    pub fn duplicate(&self) -> (t: StateTransition)
        ensures
            t@ == self@,
    {
        StateTransition {
            state: clone_u32_vec(&self.state),
            action: self.action,
            reward: self.reward,
            next_state: clone_u32_vec(&self.next_state),
            invalid_actions_mask: clone_bool_vec(&self.invalid_actions_mask),
            is_terminal: self.is_terminal,
        }
    }
}

/// The slot contents after writing each of `ts` at the cycling write
/// position: appended while the store is not yet full, overwriting the
/// oldest slot afterwards.
pub open spec fn slots_after(
    slots: Seq<TransitionView>,
    cap: int,
    wp: int,
    ts: Seq<TransitionView>,
) -> Seq<TransitionView>
    decreases ts.len(),
{
    if ts.len() == 0 {
        slots
    } else {
        let s2 = if slots.len() < cap {
            slots.push(ts[0])
        } else {
            slots.update(wp, ts[0])
        };
        slots_after(s2, cap, (wp + 1) % cap, ts.skip(1))
    }
}

/// The write position after `n` writes.
pub open spec fn wp_after(cap: int, wp: int, n: nat) -> int
    decreases n,
{
    if n == 0 {
        wp
    } else {
        wp_after(cap, (wp + 1) % cap, (n - 1) as nat)
    }
}

/// The leaf priorities after `n` writes of priority `p` at the cycling
/// write position.
pub open spec fn pris_after(pris: Seq<u64>, cap: int, wp: int, n: nat, p: u64) -> Seq<u64>
    decreases n,
{
    if n == 0 {
        pris
    } else {
        pris_after(pris.update(wp, p), cap, (wp + 1) % cap, (n - 1) as nat, p)
    }
}

/// The leaf priorities after applying each `(index, error)` pair in turn.
pub open spec fn pris_updated(
    pris: Seq<u64>,
    idxs: Seq<usize>,
    tds: Seq<i64>,
    alpha: u64,
    epsilon: u64,
) -> Seq<u64>
    decreases idxs.len(),
{
    if idxs.len() == 0 {
        pris
    } else {
        pris_updated(
            pris.update(idxs[0] as int, priority_of(tds[0], alpha, epsilon)),
            idxs.skip(1),
            tds.skip(1),
            alpha,
            epsilon,
        )
    }
}

/// The largest priority seen after applying each error in turn.
pub open spec fn max_priority_after(maxp: u64, tds: Seq<i64>, alpha: u64, epsilon: u64) -> u64
    decreases tds.len(),
{
    if tds.len() == 0 {
        maxp
    } else {
        let p = priority_of(tds[0], alpha, epsilon);
        max_priority_after(if p > maxp { p } else { maxp }, tds.skip(1), alpha, epsilon)
    }
}

/// The priority assigned to a transition with the given error magnitude:
/// `(|error| + epsilon) ^ alpha`, with the base clipped to one whole and
/// the result floored at one fixed-point unit so that every stored
/// transition keeps a positive sampling mass.
pub open spec fn priority_of(td: i64, alpha: u64, epsilon: u64) -> u64 {
    let m = abs_i64_spec(td) as int + epsilon as int;
    let base: u64 = if m > 65536 {
        65536u64
    } else {
        m as u64
    };
    let p = fpow_spec(base, alpha);
    if p < 1 {
        1u64
    } else {
        p
    }
}

/// Computes the priority for one temporal-difference error.
pub fn priority_for(td_error: i64, alpha: u64, epsilon: u64) -> (p: u64)
    requires
        alpha <= FIXED_ONE,
        epsilon <= FIXED_ONE,
    ensures
        p == priority_of(td_error, alpha, epsilon),
        1 <= p <= FIXED_ONE,
{
    let mag = abs_i64(td_error);
    let base: u64 = if mag >= FIXED_ONE {
        FIXED_ONE
    } else {
        let s = mag + epsilon;
        if s > FIXED_ONE {
            FIXED_ONE
        } else {
            s
        }
    };
    let p = fpow(base, alpha);
    if p < 1 {
        1
    } else {
        p
    }
}

/// The smallest element of a nonempty sequence.
pub open spec fn seq_min(s: Seq<u64>) -> u64
    decreases s.len(),
{
    if s.len() <= 1 {
        s[0]
    } else {
        let m = seq_min(s.drop_last());
        if s.last() < m {
            s.last()
        } else {
            m
        }
    }
}

/// The normalized importance weight of a sample with priority `p` in a
/// batch whose smallest priority is `minp`: `(minp / p) ^ beta`, floored
/// at one fixed-point unit.
pub open spec fn weight_of(p: u64, minp: u64, beta: u64) -> u64 {
    let ratio: u64 = (((minp as int) * 65536) / (p as int)) as u64;
    let f = fpow_spec(ratio, beta);
    if f < 1 {
        1u64
    } else {
        f
    }
}

/// Computes the batch-normalized importance weights for the given
/// priorities: every weight lies in `(0, 1]` and the batch maximum is
/// exactly one.
pub fn normalized_weights(priorities: &Vec<u64>, beta: u64) -> (w: Vec<u64>)
    requires
        priorities@.len() >= 1,
        beta <= FIXED_ONE,
        forall|k: int| 0 <= k < priorities@.len() ==> 1 <= (#[trigger] priorities@[k]) <= FIXED_ONE,
    ensures
        w@.len() == priorities@.len(),
        forall|k: int|
            0 <= k < w@.len() ==> (#[trigger] w@[k]) == weight_of(
                priorities@[k],
                seq_min(priorities@),
                beta,
            ),
        forall|k: int| 0 <= k < w@.len() ==> 1 <= (#[trigger] w@[k]) <= FIXED_ONE,
        exists|k: int| 0 <= k < w@.len() && (#[trigger] w@[k]) == FIXED_ONE,
{
    let mut m: u64 = priorities[0];
    let ghost mut witness: int = 0;
    let mut i: usize = 1;
    proof {
        assert(priorities@.subrange(0, 1) =~= seq![priorities@[0]]);
        assert(seq_min(priorities@.subrange(0, 1)) == priorities@[0]);
    }
    while i < priorities.len()
        invariant
            1 <= i <= priorities@.len(),
            m == seq_min(priorities@.subrange(0, i as int)),
            0 <= witness < i,
            priorities@[witness] == m,
            forall|j: int| 0 <= j < i ==> m <= (#[trigger] priorities@[j]),
            forall|k: int|
                0 <= k < priorities@.len() ==> 1 <= (#[trigger] priorities@[k]) <= FIXED_ONE,
        decreases priorities@.len() - i,
    {
        proof {
            assert(priorities@.subrange(0, i as int + 1).drop_last() =~= priorities@.subrange(
                0,
                i as int,
            ));
            assert(priorities@.subrange(0, i as int + 1).last() == priorities@[i as int]);
        }
        if priorities[i] < m {
            m = priorities[i];
            proof {
                witness = i as int;
            }
        }
        i = i + 1;
    }
    proof {
        assert(priorities@.subrange(0, priorities@.len() as int) =~= priorities@);
    }
    let minp = m;
    let mut w: Vec<u64> = Vec::new();
    let mut k: usize = 0;
    while k < priorities.len()
        invariant
            k <= priorities@.len(),
            w@.len() == k,
            minp == seq_min(priorities@),
            0 <= witness < priorities@.len(),
            priorities@[witness] == minp,
            forall|j: int| 0 <= j < priorities@.len() ==> minp <= (#[trigger] priorities@[j]),
            forall|j: int|
                0 <= j < priorities@.len() ==> 1 <= (#[trigger] priorities@[j]) <= FIXED_ONE,
            beta <= FIXED_ONE,
            forall|j: int|
                0 <= j < k ==> (#[trigger] w@[j]) == weight_of(priorities@[j], minp, beta),
            forall|j: int| 0 <= j < k ==> 1 <= (#[trigger] w@[j]) <= FIXED_ONE,
        decreases priorities@.len() - k,
    {
        let pk = priorities[k];
        proof {
            lemma_ratio_bounds(minp, pk);
        }
        let ratio = (minp * FIXED_ONE) / pk;
        let f = fpow(ratio, beta);
        let wk = if f < 1 {
            1
        } else {
            f
        };
        w.push(wk);
        k = k + 1;
    }
    proof {
        lemma_ratio_bounds(minp, minp);
        lemma_fpow_bounds(FIXED_ONE, beta);
        assert(w@[witness] == weight_of(priorities@[witness], minp, beta));
        assert(w@[witness] == FIXED_ONE);
    }
    w
}

/// The normalization ratio `minp / p` stays within one whole and is exact
/// on the minimum itself.
proof fn lemma_ratio_bounds(minp: u64, p: u64)
    requires
        1 <= minp <= p,
        p <= FIXED_ONE,
    ensures
        ((minp as int) * 65536) / (p as int) <= 65536,
        minp == p ==> ((minp as int) * 65536) / (p as int) == 65536,
        (minp as int) * 65536 <= 65536 * 65536,
{
    assert((minp as int) * 65536 <= (p as int) * 65536) by (nonlinear_arith)
        requires
            minp <= p,
    ;
    assert((p as int) * 65536 <= 65536 * 65536) by (nonlinear_arith)
        requires
            p <= 65536,
    ;
    assert(((p as int) * 65536) / (p as int) == 65536) by (nonlinear_arith)
        requires
            1 <= p,
    ;
    vstd::arithmetic::div_mod::lemma_div_is_ordered(
        (minp as int) * 65536,
        (p as int) * 65536,
        p as int,
    );
}

/// A prioritized sample: the chosen transitions, their raw slot indices
/// (needed later for priority feedback), and their normalized importance
/// weights.
pub struct PrioritizedBatch {
    pub transitions: Vec<StateTransition>,
    pub indices: Vec<usize>,
    pub weights: Vec<u64>,
}

/// Ring storage of flattened transitions of fixed capacity, paired with a
/// sum tree holding one priority per occupied slot.
#[verifier::reject_recursive_types(S)]
#[verifier::reject_recursive_types(D)]
pub struct ReplayBuffer<S: StateType, D: DataAugmenterType<State = S>> {
    data_augmenter: D,
    transitions: Vec<StateTransition>,
    sum_tree: SumTree,
    capacity: usize,
    write_position: usize,
    max_priority: u64,
}

impl<S: StateType, D: DataAugmenterType<State = S>> View for ReplayBuffer<S, D> {
    type V = Seq<TransitionView>;

    /// The occupied slots, in slot order.
    closed spec fn view(&self) -> Seq<TransitionView> {
        views_of(self.transitions@)
    }
}

impl<S: StateType, D: DataAugmenterType<State = S>> ReplayBuffer<S, D> {
    /// Number of slots.
    pub closed spec fn capacity_spec(&self) -> int {
        self.capacity as int
    }

    /// Number of occupied slots.
    pub closed spec fn size_spec(&self) -> int {
        self.transitions@.len() as int
    }

    /// The slot the next write lands in.
    pub closed spec fn write_position_spec(&self) -> int {
        self.write_position as int
    }

    /// The largest priority ever assigned.
    pub closed spec fn max_priority_spec(&self) -> u64 {
        self.max_priority
    }

    /// The per-slot priorities, one leaf per slot.
    pub closed spec fn priorities_spec(&self) -> Seq<u64> {
        self.sum_tree@
    }

    /// The total priority mass.
    pub open spec fn total_priority_spec(&self) -> int {
        range_sum(self.priorities_spec(), 0, self.capacity_spec())
    }

    /// The priorities of the slots selected by `idxs`.
    pub open spec fn selected_priorities(&self, idxs: Seq<usize>) -> Seq<u64> {
        Seq::new(idxs.len(), |k: int| self.priorities_spec()[idxs[k] as int])
    }

    /// Well-formedness: the tree mirrors the ring slot-for-slot, occupied
    /// slots carry priorities in `[1, 1.0]`, unoccupied slots carry zero,
    /// the write position cycles, and every stored transition has the
    /// domain's shape.
    pub closed spec fn wf(&self) -> bool {
        &&& self.sum_tree.wf()
        &&& self.sum_tree.capacity_spec() == self.capacity as int
        &&& self.sum_tree@.len() == self.capacity as int
        &&& 1 <= self.capacity <= CAPACITY_LIMIT
        &&& is_pow_2(self.capacity as int)
        &&& self.transitions@.len() <= self.capacity
        &&& self.write_position < self.capacity
        &&& self.transitions@.len() < self.capacity ==> self.write_position
            == self.transitions@.len()
        &&& 1 <= self.max_priority <= FIXED_ONE
        &&& forall|k: int|
            0 <= k < self.transitions@.len() ==> 1 <= (#[trigger] self.sum_tree@[k]) <= FIXED_ONE
        &&& forall|k: int|
            self.transitions@.len() <= k < self.capacity ==> (#[trigger] self.sum_tree@[k]) == 0
        &&& forall|k: int|
            0 <= k < self.transitions@.len() ==> (#[trigger] self.transitions@[k]@).valid(
                S::num_actions_spec(),
                S::num_features_spec(),
            )
    }

    /// Facts every well-formed buffer provides to its callers.
    pub proof fn lemma_wf_facts(&self)
        requires
            self.wf(),
        ensures
            0 <= self.size_spec() <= self.capacity_spec(),
            1 <= self.capacity_spec() <= CAPACITY_LIMIT as int,
            0 <= self.write_position_spec() < self.capacity_spec(),
            self@.len() == self.size_spec(),
            self.priorities_spec().len() == self.capacity_spec(),
            forall|k: int|
                0 <= k < self.size_spec() ==> (#[trigger] self@[k]).valid(
                    S::num_actions_spec(),
                    S::num_features_spec(),
                ),
            forall|k: int|
                0 <= k < self.size_spec() ==> 1 <= (#[trigger] self.priorities_spec()[k])
                    <= FIXED_ONE,
            self.size_spec() <= self.total_priority_spec(),
            self.total_priority_spec() <= self.capacity_spec() * (FIXED_ONE as int),
    {
        self.lemma_total_bounds();
    }

    /// The total mass is at least one unit per occupied slot and at most
    /// one whole per slot.
    proof fn lemma_total_bounds(&self)
        requires
            self.wf(),
        ensures
            self.size_spec() <= self.total_priority_spec(),
            self.total_priority_spec() <= self.capacity_spec() * (FIXED_ONE as int),
            range_sum(self.priorities_spec(), self.size_spec(), self.capacity_spec()) == 0,
    {
        let pris = self.priorities_spec();
        let size = self.size_spec();
        let cap = self.capacity_spec();
        lemma_range_sum_split(pris, 0, size, cap);
        lemma_range_sum_lower(pris, 0, size, 1);
        lemma_range_sum_lower(pris, size, cap, 0);
        lemma_range_sum_upper(pris, size, cap, 0);
        lemma_range_sum_upper(pris, 0, size, FIXED_ONE);
        assert(size * 1int == size) by (nonlinear_arith);
        assert((cap - size) * 0int == 0) by (nonlinear_arith);
        assert(size * (FIXED_ONE as int) <= cap * (FIXED_ONE as int)) by (nonlinear_arith)
            requires
                size <= cap,
        ;
    }

    /// A fresh buffer of the given power-of-two capacity.
    pub fn new(data_augmenter: D, capacity: usize) -> (buffer: ReplayBuffer<S, D>)
        requires
            is_pow_2(capacity as int),
            capacity <= CAPACITY_LIMIT,
        ensures
            buffer.wf(),
            buffer@.len() == 0,
            buffer.size_spec() == 0,
            buffer.capacity_spec() == capacity,
            buffer.write_position_spec() == 0,
            buffer.max_priority_spec() == FIXED_ONE,
            forall|k: int| 0 <= k < capacity ==> (#[trigger] buffer.priorities_spec()[k]) == 0,
            buffer.total_priority_spec() == 0,
    {
        proof {
            lemma_zero_range_sum(capacity as int);
        }
        ReplayBuffer {
            data_augmenter,
            transitions: Vec::new(),
            sum_tree: SumTree::with_capacity(capacity),
            capacity,
            write_position: 0,
            max_priority: FIXED_ONE,
        }
    }

    /// Number of occupied slots.
    pub fn size(&self) -> (n: usize)
        ensures
            n as int == self.size_spec(),
    {
        self.transitions.len()
    }

    /// Number of slots.
    pub fn capacity(&self) -> (n: usize)
        ensures
            n as int == self.capacity_spec(),
    {
        self.capacity
    }

    /// The slot the next write lands in.
    pub fn write_position(&self) -> (n: usize)
        ensures
            n as int == self.write_position_spec(),
    {
        self.write_position
    }

    /// The total priority mass over all slots.
    pub fn total_priority(&self) -> (t: u64)
        requires
            self.wf(),
        ensures
            t as int == self.total_priority_spec(),
    {
        self.sum_tree.total()
    }

    /// Expands one observed step through the augmenter and writes each
    /// resulting transition at the cycling write position with the current
    /// maximum priority.
    pub fn store(&mut self, state: S, action: S::Action, reward: i64, next_state: S)
        requires
            old(self).wf(),
            0 <= action.index_spec() < S::num_actions_spec(),
        ensures
            final(self).wf(),
            final(self)@ == slots_after(
                old(self)@,
                old(self).capacity_spec(),
                old(self).write_position_spec(),
                old(self).data_augmenter_spec().augment_spec(state, action, reward, next_state),
            ),
            final(self).priorities_spec() == pris_after(
                old(self).priorities_spec(),
                old(self).capacity_spec(),
                old(self).write_position_spec(),
                old(self).data_augmenter_spec().augment_spec(state, action, reward, next_state).len(),
                old(self).max_priority_spec(),
            ),
            final(self).write_position_spec() == wp_after(
                old(self).capacity_spec(),
                old(self).write_position_spec(),
                old(self).data_augmenter_spec().augment_spec(state, action, reward, next_state).len(),
            ),
            final(self).capacity_spec() == old(self).capacity_spec(),
            final(self).max_priority_spec() == old(self).max_priority_spec(),
    {
        let ghost tsv = self.data_augmenter_spec().augment_spec(state, action, reward, next_state);
        let ghost cap = self.capacity as int;
        let ghost slots0 = self@;
        let ghost pris0 = self.priorities_spec();
        let ghost wp0 = self.write_position as int;
        let new_transitions = self.data_augmenter.augment(state, action, reward, next_state);
        proof {
            assert(tsv.skip(0) =~= tsv);
        }
        let mut k: usize = 0;
        while k < new_transitions.len()
            invariant
                self.wf(),
                self.capacity as int == cap,
                self.max_priority == old(self).max_priority,
                k <= new_transitions@.len(),
                views_of(new_transitions@) == tsv,
                forall|m: int|
                    0 <= m < tsv.len() ==> (#[trigger] tsv[m]).valid(
                        S::num_actions_spec(),
                        S::num_features_spec(),
                    ),
                slots_after(self@, cap, self.write_position as int, tsv.skip(k as int))
                    == slots_after(slots0, cap, wp0, tsv),
                pris_after(
                    self.priorities_spec(),
                    cap,
                    self.write_position as int,
                    (tsv.len() - k) as nat,
                    self.max_priority,
                ) == pris_after(pris0, cap, wp0, tsv.len(), self.max_priority),
                wp_after(cap, self.write_position as int, (tsv.len() - k) as nat) == wp_after(
                    cap,
                    wp0,
                    tsv.len(),
                ),
            decreases new_transitions@.len() - k,
        {
            let ghost prev_slots = self@;
            let ghost prev_pris = self.priorities_spec();
            let ghost prev_wp = self.write_position as int;
            let ghost rest = tsv.skip(k as int);
            let t = new_transitions[k].duplicate();
            proof {
                assert(t@ == tsv[k as int]);
                assert(rest[0] == tsv[k as int]);
                assert(rest.skip(1) =~= tsv.skip(k as int + 1));
            }
            let was_full = self.transitions.len() == self.capacity;
            if !was_full {
                self.transitions.push(t);
                proof {
                    assert(self@ =~= prev_slots.push(tsv[k as int]));
                }
            } else {
                self.transitions.set(self.write_position, t);
                proof {
                    assert(self@ =~= prev_slots.update(prev_wp, tsv[k as int]));
                }
            }
            self.sum_tree.update(self.write_position, self.max_priority);
            self.write_position = (self.write_position + 1) % self.capacity;
            k = k + 1;
            proof {
                if prev_wp + 1 < cap {
                    vstd::arithmetic::div_mod::lemma_small_mod((prev_wp + 1) as nat, cap as nat);
                } else {
                    assert(prev_wp + 1 == cap);
                    assert((prev_wp + 1) % cap == 0) by {
                        vstd::arithmetic::div_mod::lemma_mod_self_0(cap);
                    }
                }
                assert(self.write_position as int == (prev_wp + 1) % cap);
                assert(slots_after(prev_slots, cap, prev_wp, rest) == slots_after(
                    self@,
                    cap,
                    self.write_position as int,
                    tsv.skip(k as int),
                ));
                assert(pris_after(
                    prev_pris,
                    cap,
                    prev_wp,
                    (tsv.len() - k + 1) as nat,
                    self.max_priority,
                ) == pris_after(
                    self.priorities_spec(),
                    cap,
                    self.write_position as int,
                    (tsv.len() - k) as nat,
                    self.max_priority,
                ));
            }
        }
        proof {
            assert(tsv.skip(tsv.len() as int) =~= Seq::<TransitionView>::empty());
        }
    }

    /// Draws a stratified proportional sample of `batch_size` transitions:
    /// the priority mass is split into `batch_size` equal segments and one
    /// uniform value is drawn per segment, so every returned index is the
    /// slot whose prefix-sum interval contains its segment's draw. The
    /// returned weights are normalized so the batch maximum is exactly one
    /// and every weight lies in `(0, 1]`.
    pub fn sample(&self, batch_size: usize, beta: u64) -> (batch: PrioritizedBatch)
        requires
            self.wf(),
            1 <= batch_size <= self.size_spec(),
            beta <= FIXED_ONE,
        ensures
            batch.transitions@.len() == batch_size,
            batch.indices@.len() == batch_size,
            batch.weights@.len() == batch_size,
            forall|k: int|
                0 <= k < batch_size ==> (#[trigger] batch.indices@[k]) < self.size_spec(),
            forall|k: int|
                0 <= k < batch_size ==> (#[trigger] batch.transitions@[k]@)
                    == self@[batch.indices@[k] as int],
            forall|k: int|
                0 <= k < batch_size ==> (#[trigger] batch.transitions@[k]@).valid(
                    S::num_actions_spec(),
                    S::num_features_spec(),
                ),
            forall|k: int|
                0 <= k < batch_size ==> (#[trigger] batch.weights@[k]) == weight_of(
                    self.selected_priorities(batch.indices@)[k],
                    seq_min(self.selected_priorities(batch.indices@)),
                    beta,
                ),
            forall|k: int| 0 <= k < batch_size ==> 1 <= (#[trigger] batch.weights@[k]) <= FIXED_ONE,
            exists|k: int| 0 <= k < batch_size && (#[trigger] batch.weights@[k]) == FIXED_ONE,
            forall|k: int|
                0 <= k < batch_size ==> #[trigger] segment_overlaps(
                    self.priorities_spec(),
                    self.total_priority_spec() / (batch_size as int),
                    k,
                    batch.indices@[k] as int,
                ),
    {
        proof {
            self.lemma_total_bounds();
        }
        let total = self.sum_tree.total();
        let ghost seg = self.total_priority_spec() / (batch_size as int);
        let segment = total / (batch_size as u64);
        proof {
            vstd::arithmetic::div_mod::lemma_fundamental_div_mod(total as int, batch_size as int);
            vstd::arithmetic::div_mod::lemma_mod_bound(total as int, batch_size as int);
            assert(total as int == (batch_size as int) * seg + (total as int) % (batch_size as int));
            if seg < 1 {
                assert((batch_size as int) * seg <= 0) by (nonlinear_arith)
                    requires
                        seg <= 0,
                        batch_size >= 1,
                ;
                assert(false);
            }
            assert((batch_size as int) * seg <= total as int) by {
                assert((total as int) % (batch_size as int) >= 0);
            }
            assert(segment >= 1);
        }
        let mut transitions: Vec<StateTransition> = Vec::new();
        let mut indices: Vec<usize> = Vec::new();
        let mut priorities: Vec<u64> = Vec::new();
        let mut k: usize = 0;
        while k < batch_size
            invariant
                self.wf(),
                1 <= batch_size <= self.size_spec(),
                k <= batch_size,
                segment as int == seg,
                1 <= segment,
                (batch_size as int) * seg <= self.total_priority_spec(),
                total as int == self.total_priority_spec(),
                transitions@.len() == k,
                indices@.len() == k,
                priorities@.len() == k,
                forall|j: int| 0 <= j < k ==> (#[trigger] indices@[j]) < self.size_spec(),
                forall|j: int|
                    0 <= j < k ==> (#[trigger] transitions@[j]@) == self@[indices@[j] as int],
                forall|j: int|
                    0 <= j < k ==> (#[trigger] priorities@[j]) == self.priorities_spec()[indices@[j] as int],
                forall|j: int| 0 <= j < k ==> 1 <= (#[trigger] priorities@[j]) <= FIXED_ONE,
                forall|j: int|
                    0 <= j < k ==> #[trigger] segment_overlaps(
                        self.priorities_spec(),
                        seg,
                        j,
                        indices@[j] as int,
                    ),
            decreases batch_size - k,
        {
            proof {
                assert((k as int) * seg + seg == (k as int + 1) * seg) by (nonlinear_arith);
                assert((k as int + 1) * seg <= (batch_size as int) * seg) by (nonlinear_arith)
                    requires
                        k as int + 1 <= batch_size as int,
                        seg >= 0,
                ;
                assert((k as int) * seg >= 0) by (nonlinear_arith)
                    requires
                        k >= 0,
                        seg >= 0,
                ;
            }
            let draw = (k as u64) * segment + random_u64_below(segment);
            let (idx, pri) = self.sum_tree.sample(draw);
            proof {
                if idx as int >= self.size_spec() {
                    assert(self.priorities_spec()[idx as int] == 0);
                    lemma_prefix_succ(self.priorities_spec(), idx as int);
                    assert(false);
                }
            }
            let t = self.transitions[idx].duplicate();
            transitions.push(t);
            indices.push(idx);
            priorities.push(pri);
            k = k + 1;
        }
        let weights = normalized_weights(&priorities, beta);
        proof {
            assert(priorities@ =~= self.selected_priorities(indices@));
            let k0 = choose|k0: int| 0 <= k0 < weights@.len() && weights@[k0] == FIXED_ONE;
            assert(0 <= k0 < batch_size && weights@[k0] == FIXED_ONE);
        }
        PrioritizedBatch { transitions, indices, weights }
    }

    /// Rewrites the priority of each sampled slot from its fresh error
    /// magnitude, and raises the running maximum priority accordingly.
    pub fn update_priorities(
        &mut self,
        indices: &Vec<usize>,
        td_errors: &Vec<i64>,
        alpha: u64,
        epsilon: u64,
    )
        requires
            old(self).wf(),
            indices@.len() == td_errors@.len(),
            forall|k: int| 0 <= k < indices@.len() ==> (#[trigger] indices@[k]) < old(self).size_spec(),
            alpha <= FIXED_ONE,
            epsilon <= FIXED_ONE,
        ensures
            final(self).wf(),
            final(self).priorities_spec() == pris_updated(
                old(self).priorities_spec(),
                indices@,
                td_errors@,
                alpha,
                epsilon,
            ),
            final(self).max_priority_spec() == max_priority_after(
                old(self).max_priority_spec(),
                td_errors@,
                alpha,
                epsilon,
            ),
            final(self)@ == old(self)@,
            final(self).size_spec() == old(self).size_spec(),
            final(self).capacity_spec() == old(self).capacity_spec(),
            final(self).write_position_spec() == old(self).write_position_spec(),
    {
        let ghost pris0 = self.priorities_spec();
        let ghost max0 = self.max_priority;
        proof {
            assert(indices@.skip(0) =~= indices@);
            assert(td_errors@.skip(0) =~= td_errors@);
        }
        let mut k: usize = 0;
        while k < indices.len()
            invariant
                self.wf(),
                self@ == old(self)@,
                self.capacity_spec() == old(self).capacity_spec(),
                self.write_position_spec() == old(self).write_position_spec(),
                k <= indices@.len(),
                indices@.len() == td_errors@.len(),
                alpha <= FIXED_ONE,
                epsilon <= FIXED_ONE,
                forall|j: int|
                    0 <= j < indices@.len() ==> (#[trigger] indices@[j]) < self.size_spec(),
                pris_updated(
                    self.priorities_spec(),
                    indices@.skip(k as int),
                    td_errors@.skip(k as int),
                    alpha,
                    epsilon,
                ) == pris_updated(pris0, indices@, td_errors@, alpha, epsilon),
                max_priority_after(self.max_priority, td_errors@.skip(k as int), alpha, epsilon)
                    == max_priority_after(max0, td_errors@, alpha, epsilon),
            decreases indices@.len() - k,
        {
            let ghost prev_pris = self.priorities_spec();
            let p = priority_for(td_errors[k], alpha, epsilon);
            proof {
                assert(indices@.skip(k as int)[0] == indices@[k as int]);
                assert(td_errors@.skip(k as int)[0] == td_errors@[k as int]);
                assert(indices@.skip(k as int).skip(1) =~= indices@.skip(k as int + 1));
                assert(td_errors@.skip(k as int).skip(1) =~= td_errors@.skip(k as int + 1));
            }
            self.sum_tree.update(indices[k], p);
            if p > self.max_priority {
                self.max_priority = p;
            }
            k = k + 1;
        }
        proof {
            assert(indices@.skip(indices@.len() as int) =~= Seq::<usize>::empty());
            assert(td_errors@.skip(td_errors@.len() as int) =~= Seq::<i64>::empty());
        }
    }

    /// A bounded slice of the occupied slots, in slot order: the
    /// transitions in `[from, min(to, size))`. Used by serialization to
    /// walk the contents chunk by chunk.
    pub fn transitions(&self, from: usize, to: usize) -> (r: Vec<StateTransition>)
        requires
            self.wf(),
            from <= to,
            from <= self.size_spec(),
        ensures
            r@.len() == (if to as int <= self.size_spec() {
                to as int
            } else {
                self.size_spec()
            }) - from,
            forall|j: int| 0 <= j < r@.len() ==> (#[trigger] r@[j]@) == self@[from + j],
    {
        let end = if to <= self.transitions.len() {
            to
        } else {
            self.transitions.len()
        };
        let mut r: Vec<StateTransition> = Vec::new();
        let mut i: usize = from;
        while i < end
            invariant
                from <= i <= end,
                end <= self.transitions@.len(),
                r@.len() == i - from,
                forall|j: int| 0 <= j < r@.len() ==> (#[trigger] r@[j]@) == self@[from + j],
            decreases end - i,
        {
            r.push(self.transitions[i].duplicate());
            i = i + 1;
        }
        r
    }

    /// Rebuilds a buffer from recovered transitions: every slot gets the
    /// default priority of one whole, since priorities are not persisted.
    pub fn from_parts(
        data_augmenter: D,
        transitions: Vec<StateTransition>,
        capacity: usize,
        write_position: usize,
    ) -> (buffer: ReplayBuffer<S, D>)
        requires
            is_pow_2(capacity as int),
            capacity <= CAPACITY_LIMIT,
            transitions@.len() <= capacity,
            write_position < capacity,
            transitions@.len() < capacity ==> write_position == transitions@.len(),
            forall|k: int|
                0 <= k < transitions@.len() ==> (#[trigger] transitions@[k]@).valid(
                    S::num_actions_spec(),
                    S::num_features_spec(),
                ),
        ensures
            buffer.wf(),
            buffer@ == views_of(transitions@),
            buffer.size_spec() == transitions@.len(),
            buffer.capacity_spec() == capacity,
            buffer.write_position_spec() == write_position,
            buffer.max_priority_spec() == FIXED_ONE,
            forall|k: int|
                0 <= k < transitions@.len() ==> (#[trigger] buffer.priorities_spec()[k])
                    == FIXED_ONE,
    {
        let mut sum_tree = SumTree::with_capacity(capacity);
        let n = transitions.len();
        let mut i: usize = 0;
        while i < n
            invariant
                sum_tree.wf(),
                sum_tree.capacity_spec() == capacity as int,
                sum_tree@.len() == capacity as int,
                n == transitions@.len(),
                n <= capacity,
                i <= n,
                forall|k: int| 0 <= k < i ==> (#[trigger] sum_tree@[k]) == FIXED_ONE,
                forall|k: int| i <= k < capacity ==> (#[trigger] sum_tree@[k]) == 0,
            decreases n - i,
        {
            sum_tree.update(i, FIXED_ONE);
            i = i + 1;
        }
        ReplayBuffer {
            data_augmenter,
            transitions,
            sum_tree,
            capacity,
            write_position,
            max_priority: FIXED_ONE,
        }
    }

    /// The augmenter this buffer expands steps with.
    pub closed spec fn data_augmenter_spec(&self) -> D {
        self.data_augmenter
    }
}

/// The draw for segment `k` (an interval of the priority mass) fell into
/// slot `idx`'s prefix-sum interval: the two intervals overlap.
pub open spec fn segment_overlaps(pris: Seq<u64>, seg: int, k: int, idx: int) -> bool {
    k * seg < prefix_sum(pris, idx + 1) && prefix_sum(pris, idx) < (k + 1) * seg
}

/// The write position after filling without wrapping: it tracks the
/// occupancy and returns to slot zero exactly when the ring fills.
pub proof fn lemma_wp_fill(cap: int, start: int, n: nat)
    requires
        1 <= cap,
        0 <= start < cap,
        start + n <= cap,
    ensures
        wp_after(cap, start, n) == if start + n == cap {
            0int
        } else {
            start + n
        },
    decreases n,
{
    if n > 0 {
        assert(start < cap);
        assert(wp_after(cap, start, n) == wp_after(cap, (start + 1) % cap, (n - 1) as nat));
        if start + 1 == cap {
            vstd::arithmetic::div_mod::lemma_mod_self_0(cap);
            assert(n == 1);
            assert(wp_after(cap, (start + 1) % cap, 0) == (start + 1) % cap);
        } else {
            vstd::arithmetic::div_mod::lemma_small_mod((start + 1) as nat, cap as nat);
            lemma_wp_fill(cap, start + 1, (n - 1) as nat);
        }
    }
}

/// Writing a concatenation of transition lists is writing the first list
/// and then the second from where the write position ended up.
pub proof fn lemma_store_append(
    slots: Seq<TransitionView>,
    cap: int,
    wp: int,
    a: Seq<TransitionView>,
    b: Seq<TransitionView>,
)
    ensures
        slots_after(slots, cap, wp, a + b) == slots_after(
            slots_after(slots, cap, wp, a),
            cap,
            wp_after(cap, wp, a.len()),
            b,
        ),
    decreases a.len(),
{
    if a.len() == 0 {
        assert(a + b =~= b);
    } else {
        assert((a + b)[0] == a[0]);
        assert((a + b).skip(1) =~= a.skip(1) + b);
        let s2 = if slots.len() < cap {
            slots.push(a[0])
        } else {
            slots.update(wp, a[0])
        };
        lemma_store_append(s2, cap, (wp + 1) % cap, a.skip(1), b);
    }
}

/// The write position after `n1 + n2` writes is reached by `n1` writes
/// and then `n2` more.
pub proof fn lemma_wp_append(cap: int, wp: int, n1: nat, n2: nat)
    ensures
        wp_after(cap, wp, n1 + n2) == wp_after(cap, wp_after(cap, wp, n1), n2),
    decreases n1,
{
    if n1 > 0 {
        lemma_wp_append(cap, (wp + 1) % cap, (n1 - 1) as nat, n2);
    }
}

/// Writing `n1 + n2` priorities is writing `n1` and then `n2` more from
/// where the write position ended up.
pub proof fn lemma_pris_append(pris: Seq<u64>, cap: int, wp: int, n1: nat, n2: nat, p: u64)
    ensures
        pris_after(pris, cap, wp, n1 + n2, p) == pris_after(
            pris_after(pris, cap, wp, n1, p),
            cap,
            wp_after(cap, wp, n1),
            n2,
            p,
        ),
    decreases n1,
{
    if n1 > 0 {
        lemma_pris_append(pris.update(wp, p), cap, (wp + 1) % cap, (n1 - 1) as nat, n2, p);
    }
}

/// While the ring is not yet full and the write position sits at the
/// occupancy, stores append.
pub proof fn lemma_store_fill(slots: Seq<TransitionView>, cap: int, items: Seq<TransitionView>)
    requires
        1 <= cap,
        slots.len() + items.len() <= cap,
    ensures
        slots_after(slots, cap, slots.len() as int, items) == slots + items,
    decreases items.len(),
{
    if items.len() == 0 {
        assert(slots + items =~= slots);
    } else {
        assert(slots.len() < cap);
        let s2 = slots.push(items[0]);
        if items.len() == 1 {
            assert(items.skip(1) =~= Seq::<TransitionView>::empty());
            assert(slots_after(s2, cap, (slots.len() as int + 1) % cap, items.skip(1)) == s2);
            assert(slots + items =~= s2);
        } else {
            assert(slots.len() + 1 < cap);
            vstd::arithmetic::div_mod::lemma_small_mod((slots.len() + 1) as nat, cap as nat);
            lemma_store_fill(s2, cap, items.skip(1));
            assert(slots + items =~= s2 + items.skip(1));
        }
    }
}

/// Writing `n` priorities without wrapping sets exactly the slots from
/// the write position on.
pub proof fn lemma_pris_fill(pris: Seq<u64>, cap: int, wp: int, n: nat, p: u64)
    requires
        1 <= cap,
        pris.len() == cap,
        0 <= wp,
        wp + n <= cap,
    ensures
        pris_after(pris, cap, wp, n, p).len() == cap,
        forall|k: int|
            0 <= k < cap ==> (#[trigger] pris_after(pris, cap, wp, n, p)[k]) == (if wp <= k < wp
                + n {
                p
            } else {
                pris[k]
            }),
    decreases n,
{
    if n > 0 {
        assert(wp < cap);
        let p2 = pris.update(wp, p);
        if wp + 1 == cap {
            vstd::arithmetic::div_mod::lemma_mod_self_0(cap);
            assert(n == 1);
            assert(pris_after(p2, cap, (wp + 1) % cap, 0, p) == p2);
        } else {
            vstd::arithmetic::div_mod::lemma_small_mod((wp + 1) as nat, cap as nat);
            lemma_pris_fill(p2, cap, wp + 1, (n - 1) as nat, p);
        }
    }
}

/// The ring-wraparound law: storing one more transition than the
/// capacity into a fresh ring leaves it full, with the newest transition
/// in slot zero (the only slot overwritten), every other slot keeping its
/// original transition, every slot carrying the stored priority, and the
/// write position one past the wrap.
pub proof fn lemma_ring_wraparound(items: Seq<TransitionView>, pris0: Seq<u64>, cap: int, p: u64)
    requires
        1 <= cap,
        items.len() == cap + 1,
        pris0.len() == cap,
    ensures
        slots_after(Seq::empty(), cap, 0, items).len() == cap,
        slots_after(Seq::empty(), cap, 0, items)[0] == items[cap as int],
        forall|k: int|
            1 <= k < cap ==> (#[trigger] slots_after(Seq::empty(), cap, 0, items)[k]) == items[k],
        forall|k: int|
            0 <= k < cap ==> (#[trigger] pris_after(pris0, cap, 0, (cap + 1) as nat, p)[k]) == p,
        wp_after(cap, 0, (cap + 1) as nat) == 1int % cap,
{
    let front = items.take(cap as int);
    let lastl = seq![items[cap as int]];
    assert(items =~= front + lastl);
    lemma_store_append(Seq::empty(), cap, 0, front, lastl);
    lemma_store_fill(Seq::empty(), cap, front);
    assert(Seq::<TransitionView>::empty() + front =~= front);
    lemma_wp_fill(cap, 0, front.len());
    assert(slots_after(front, cap, 0, lastl) == front.update(0, items[cap as int])) by {
        assert(lastl.skip(1) =~= Seq::<TransitionView>::empty());
        assert(slots_after(
            front.update(0, items[cap as int]),
            cap,
            (0int + 1) % cap,
            lastl.skip(1),
        ) == front.update(0, items[cap as int]));
    }
    assert(slots_after(Seq::empty(), cap, 0, items) =~= front.update(0, items[cap as int]));
    lemma_pris_append(pris0, cap, 0, cap as nat, 1, p);
    lemma_pris_fill(pris0, cap, 0, cap as nat, p);
    let filled = pris_after(pris0, cap, 0, cap as nat, p);
    assert(pris_after(filled.update(0, p), cap, (0int + 1) % cap, 0, p) == filled.update(0, p));
    assert(pris_after(filled, cap, 0, 1, p) == filled.update(0, p));
    lemma_wp_append(cap, 0, cap as nat, 1);
    assert(wp_after(cap, (0int + 1) % cap, 0) == (0int + 1) % cap);
    assert(wp_after(cap, 0, 1) == 1int % cap);
}

/// A fresh tree's mass is zero: the sum of any range of zeroes is zero.
proof fn lemma_zero_range_sum(cap: int)
    ensures
        forall|q: Seq<u64>|
            (forall|k: int| 0 <= k < q.len() ==> (#[trigger] q[k]) == 0) && q.len() >= cap && cap
                >= 0 ==> #[trigger] range_sum(q, 0, cap) == 0,
{
    assert forall|q: Seq<u64>|
        (forall|k: int| 0 <= k < q.len() ==> (#[trigger] q[k]) == 0) && q.len() >= cap && cap
            >= 0 implies #[trigger] range_sum(q, 0, cap) == 0 by {
        lemma_range_sum_upper(q, 0, cap, 0);
        lemma_range_sum_lower(q, 0, cap, 0);
        assert(cap * 0int == 0) by (nonlinear_arith);
    }
}

/// The prefix sum one slot further adds exactly that slot's value.
pub proof fn lemma_prefix_succ(pris: Seq<u64>, idx: int)
    requires
        0 <= idx < pris.len(),
    ensures
        prefix_sum(pris, idx + 1) == prefix_sum(pris, idx) + pris[idx],
{
    lemma_range_sum_split(pris, 0, idx, idx + 1);
    assert(range_sum(pris, idx, idx + 1) == pris[idx] + range_sum(pris, idx + 1, idx + 1));
}

} // verus!
