//! The training-loop orchestration: epsilon-greedy action selection,
//! periodic prioritized training steps, periodic target-network
//! synchronization, and priority feedback into the replay buffer.

use vstd::prelude::*;

use crate::critic::CriticType;
use crate::data_augmenter::DataAugmenterType;
use crate::fixed::{
    abs_i64, abs_i64_spec, clamp_i64_spec, sat_add_i64, smul_frac, smul_frac_spec, FIXED_ONE,
};
use crate::model::Model;
use crate::random::{random_index_below, random_unit_fixed};
use crate::replay_buffer::{priority_of, ReplayBuffer};
use crate::state::{ActionType, StateType};
use crate::stats::StatsRecorderType;
use crate::sum_tree::{is_pow_2, CAPACITY_LIMIT};
use crate::training_batch::TrainingBatch;

verus! {

/// All knobs of a training run, in fixed-point units where fractional.
#[derive(Copy, Clone, PartialEq, Eq, Structural, Debug)]
pub struct Hyperparameters {
    pub learning_rate: u64,
    pub discount_factor: u64,
    pub batch_size: usize,
    pub replay_capacity: usize,
    pub per_alpha: u64,
    pub per_beta: u64,
    pub per_beta_increment: u64,
    pub per_epsilon: u64,
    pub initial_epsilon: u64,
    pub min_epsilon: u64,
    pub epsilon_decay_frames: usize,
    pub training_frequency: usize,
    pub network_sync_frequency: usize,
    pub max_episode_frames: usize,
}

impl Hyperparameters {
    /// Every fraction lies in `[0, 1]`, every period is positive, and the
    /// replay capacity is a bounded power of two.
    pub open spec fn wf(&self) -> bool {
        &&& self.discount_factor <= FIXED_ONE
        &&& self.per_alpha <= FIXED_ONE
        &&& self.per_beta <= FIXED_ONE
        &&& self.per_epsilon <= FIXED_ONE
        &&& self.initial_epsilon <= FIXED_ONE
        &&& self.min_epsilon <= FIXED_ONE
        &&& self.epsilon_decay_frames >= 1
        &&& self.training_frequency >= 1
        &&& self.network_sync_frequency >= 1
        &&& self.max_episode_frames >= 1
        &&& self.batch_size >= 1
        &&& is_pow_2(self.replay_capacity as int)
        &&& self.replay_capacity <= CAPACITY_LIMIT
    }

    /// The default knobs.
    pub fn new() -> (h: Hyperparameters)
        ensures
            h.wf(),
            h.batch_size == 32,
            h.replay_capacity == 16384,
            h.initial_epsilon == FIXED_ONE,
            h.min_epsilon == 3277,
            h.epsilon_decay_frames == 10000,
    {
        let h = Hyperparameters {
            learning_rate: 66,
            discount_factor: 64881,
            batch_size: 32,
            replay_capacity: 16384,
            per_alpha: 39322,
            per_beta: 26214,
            per_beta_increment: 66,
            per_epsilon: 655,
            initial_epsilon: FIXED_ONE,
            min_epsilon: 3277,
            epsilon_decay_frames: 10000,
            training_frequency: 4,
            network_sync_frequency: 1000,
            max_episode_frames: 100000,
        };
        proof {
            lemma_pow2_16384();
        }
        h
    }
}

/// Checks at run time that a value is a power of two.
pub fn is_power_of_two_check(n: usize) -> (b: bool)
    ensures
        b == is_pow_2(n as int),
{
    if n == 0 {
        return false;
    }
    let mut m: usize = n;
    while m % 2 == 0 && m > 1
        invariant
            m >= 1,
            is_pow_2(n as int) == is_pow_2(m as int),
        decreases m,
    {
        m = m / 2;
    }
    m == 1
}

/// Checks at run time that a set of knobs is well formed.
pub fn check_hyperparameters(h: &Hyperparameters) -> (b: bool)
    ensures
        b == h.wf(),
{
    h.discount_factor <= FIXED_ONE && h.per_alpha <= FIXED_ONE && h.per_beta <= FIXED_ONE
        && h.per_epsilon <= FIXED_ONE && h.initial_epsilon <= FIXED_ONE && h.min_epsilon
        <= FIXED_ONE && h.epsilon_decay_frames >= 1 && h.training_frequency >= 1
        && h.network_sync_frequency >= 1 && h.max_episode_frames >= 1 && h.batch_size >= 1
        && is_power_of_two_check(h.replay_capacity) && h.replay_capacity <= CAPACITY_LIMIT
}

/// Sixteen thousand three hundred eighty-four is a power of two.
proof fn lemma_pow2_16384()
    ensures
        is_pow_2(16384),
{
    assert(is_pow_2(1));
    assert(is_pow_2(2));
    assert(is_pow_2(4));
    assert(is_pow_2(8));
    assert(is_pow_2(16));
    assert(is_pow_2(32));
    assert(is_pow_2(64));
    assert(is_pow_2(128));
    assert(is_pow_2(256));
    assert(is_pow_2(512));
    assert(is_pow_2(1024));
    assert(is_pow_2(2048));
    assert(is_pow_2(4096));
    assert(is_pow_2(8192));
    assert(is_pow_2(16384));
}

/// The exploration rate at a given epoch: linear decay from the initial
/// rate to zero over `decay` epochs, floored at the minimum rate.
pub open spec fn epsilon_spec(initial: u64, min: u64, decay: int, epoch: int) -> u64 {
    if epoch >= decay {
        min
    } else {
        let lin = ((initial as int) * (decay - epoch)) / decay;
        if lin < min {
            min
        } else {
            lin as u64
        }
    }
}

/// At epoch `decay` the rate is exactly the minimum; at epoch zero it is
/// exactly the initial rate, clamped up to the minimum where that is
/// larger.
pub proof fn lemma_epsilon_decay_endpoints(initial: u64, min: u64, decay: int)
    requires
        decay >= 1,
    ensures
        epsilon_spec(initial, min, decay, decay) == min,
        epsilon_spec(initial, min, decay, 0) == (if initial < min {
            min
        } else {
            initial
        }),
{
    assert(((initial as int) * decay) / decay == initial as int) by {
        vstd::arithmetic::div_mod::lemma_div_multiples_vanish(initial as int, decay);
        assert((initial as int) * decay == decay * (initial as int)) by (nonlinear_arith);
    }
}

/// Computes the exploration rate for an epoch.
pub fn epsilon_for(initial: u64, min: u64, decay: usize, epoch: usize) -> (e: u64)
    requires
        decay >= 1,
        initial <= FIXED_ONE,
        min <= FIXED_ONE,
    ensures
        e == epsilon_spec(initial, min, decay as int, epoch as int),
        e <= FIXED_ONE,
{
    if epoch >= decay {
        return min;
    }
    proof {
        assert((initial as int) * ((decay - epoch) as int) < 0x1_0000_0000_0000_0000_0000)
            by (nonlinear_arith)
            requires
                initial <= 65536,
                0 <= (decay - epoch) as int <= 0xFFFF_FFFF_FFFF_FFFF,
        ;
    }
    let lin_wide: u128 = (initial as u128 * (decay - epoch) as u128) / (decay as u128);
    proof {
        let li = ((initial as int) * ((decay - epoch) as int)) / (decay as int);
        assert((initial as int) * ((decay - epoch) as int) <= (initial as int) * (
        decay as int)) by (nonlinear_arith)
            requires
                0 <= initial,
                0 <= decay - epoch <= decay,
        ;
        vstd::arithmetic::div_mod::lemma_div_is_ordered(
            (initial as int) * ((decay - epoch) as int),
            (initial as int) * (decay as int),
            decay as int,
        );
        assert(((initial as int) * (decay as int)) / (decay as int) == initial as int) by {
            vstd::arithmetic::div_mod::lemma_div_multiples_vanish(initial as int, decay as int);
            assert((initial as int) * (decay as int) == (decay as int) * (
            initial as int)) by (nonlinear_arith);
        }
        assert(li <= initial);
        assert(((initial as int) * ((decay - epoch) as int)) >= 0) by (nonlinear_arith)
            requires
                0 <= initial,
                0 <= decay - epoch,
        ;
    }
    let lin: u64 = lin_wide as u64;
    if lin < min {
        min
    } else {
        lin
    }
}

/// The annealed importance-sampling exponent:
/// `min(1, beta + increment * epoch)`.
pub open spec fn beta_anneal_spec(beta: u64, increment: u64, epoch: int) -> u64 {
    let b = beta as int + (increment as int) * epoch;
    if b > FIXED_ONE {
        FIXED_ONE
    } else {
        b as u64
    }
}

/// The largest value of a row of fixed-point estimates over the entries
/// whose mask bit is clear, considering the first `j` entries of the row
/// that starts at `base`.
pub open spec fn masked_max(q: Seq<i64>, m: Seq<bool>, base: int, j: nat) -> Option<i64>
    decreases j,
{
    if j == 0 {
        None
    } else {
        let prev = masked_max(q, m, base, (j - 1) as nat);
        if m[base + j - 1] {
            prev
        } else {
            match prev {
                None => Some(q[base + j - 1]),
                Some(p) => if q[base + j - 1] > p {
                    Some(q[base + j - 1])
                } else {
                    Some(p)
                },
            }
        }
    }
}

/// The bootstrap target of one sample: the reward, plus the discounted
/// best valid successor value unless the successor ended the episode. A
/// successor with no valid action contributes nothing.
pub open spec fn td_target_spec(reward: i64, terminal: bool, maxq: Option<i64>, discount: u64)
    -> i64 {
    let boot: int = if terminal {
        0
    } else {
        match maxq {
            None => 0,
            Some(mq) => smul_frac_spec(mq, discount) as int,
        }
    };
    clamp_i64_spec(reward + boot)
}

/// The Huber loss of one saturated error, with unit threshold: quadratic
/// inside `[-1, 1]`, linear outside.
pub open spec fn huber_spec(d: i64) -> i64 {
    let m = abs_i64_spec(d) as int;
    if m <= 65536 {
        ((m * m) / 131072) as i64
    } else {
        clamp_i64_spec(m - 32768)
    }
}

/// Computes per-sample bootstrap targets from rewards, terminal flags,
/// the target network's successor values and the invalid-action masks.
pub fn compute_td_targets(
    rewards: &Vec<i64>,
    terminal: &Vec<bool>,
    next_q: &Vec<i64>,
    mask: &Vec<bool>,
    num_actions: usize,
    discount: u64,
) -> (t: Vec<i64>)
    requires
        terminal@.len() == rewards@.len(),
        next_q@.len() == rewards@.len() * num_actions,
        mask@.len() == rewards@.len() * num_actions,
        rewards@.len() * (num_actions as int) <= usize::MAX,
        discount <= FIXED_ONE,
    ensures
        t@.len() == rewards@.len(),
        forall|k: int|
            0 <= k < rewards@.len() ==> (#[trigger] t@[k]) == td_target_spec(
                rewards@[k],
                terminal@[k],
                masked_max(next_q@, mask@, k * num_actions, num_actions as nat),
                discount,
            ),
{
    let n = rewards.len();
    let na = num_actions;
    let mut t: Vec<i64> = Vec::new();
    let mut k: usize = 0;
    while k < n
        invariant
            n == rewards@.len(),
            na == num_actions,
            terminal@.len() == n,
            next_q@.len() == n * na,
            mask@.len() == n * na,
            n * (na as int) <= usize::MAX,
            discount <= FIXED_ONE,
            k <= n,
            t@.len() == k,
            forall|m: int|
                0 <= m < k ==> (#[trigger] t@[m]) == td_target_spec(
                    rewards@[m],
                    terminal@[m],
                    masked_max(next_q@, mask@, m * (na as int), na as nat),
                    discount,
                ),
        decreases n - k,
    {
        proof {
            assert((k + 1) * (na as int) == k * (na as int) + na) by (nonlinear_arith);
            assert((k + 1) * (na as int) <= n * (na as int)) by (nonlinear_arith)
                requires
                    k + 1 <= n,
                    na >= 0,
            ;
            assert(k * (na as int) >= 0) by (nonlinear_arith)
                requires
                    k >= 0,
                    na >= 0,
            ;
        }
        let base = k * na;
        let mut best: Option<i64> = None;
        let mut j: usize = 0;
        while j < na
            invariant
                j <= na,
                base == k * na,
                base + na <= next_q@.len(),
                base + na <= mask@.len(),
                base + (na as int) <= usize::MAX,
                best == masked_max(next_q@, mask@, base as int, j as nat),
            decreases na - j,
        {
            if !mask[base + j] {
                let v = next_q[base + j];
                best = match best {
                    None => Some(v),
                    Some(p) => {
                        if v > p {
                            Some(v)
                        } else {
                            Some(p)
                        }
                    },
                };
            }
            j = j + 1;
        }
        let boot: i64 = if terminal[k] {
            0
        } else {
            match best {
                None => 0,
                Some(mq) => smul_frac(mq, discount),
            }
        };
        t.push(sat_add_i64(rewards[k], boot));
        k = k + 1;
    }
    t
}

/// Computes per-sample saturated temporal-difference errors.
pub fn compute_td_errors(q: &Vec<i64>, targets: &Vec<i64>) -> (e: Vec<i64>)
    requires
        q@.len() == targets@.len(),
    ensures
        e@.len() == q@.len(),
        forall|k: int|
            0 <= k < q@.len() ==> (#[trigger] e@[k]) == clamp_i64_spec(q@[k] - targets@[k]),
{
    let mut e: Vec<i64> = Vec::new();
    let mut k: usize = 0;
    while k < q.len()
        invariant
            q@.len() == targets@.len(),
            k <= q@.len(),
            e@.len() == k,
            forall|m: int|
                0 <= m < k ==> (#[trigger] e@[m]) == clamp_i64_spec(q@[m] - targets@[m]),
        decreases q@.len() - k,
    {
        e.push(crate::fixed::sat_sub_i64(q[k], targets[k]));
        k = k + 1;
    }
    e
}

/// Computes the Huber loss of one saturated error.
pub fn huber(d: i64) -> (h: i64)
    ensures
        h == huber_spec(d),
{
    let m = abs_i64(d);
    if m <= FIXED_ONE {
        proof {
            assert((m as int) * (m as int) <= 65536 * 65536) by (nonlinear_arith)
                requires
                    m <= 65536,
            ;
            assert((m as int) * (m as int) >= 0) by (nonlinear_arith);
        }
        ((m as u128 * m as u128) / 131072) as i64
    } else {
        if m - 32768 > i64::MAX as u64 {
            i64::MAX
        } else {
            (m - 32768) as i64
        }
    }
}

/// Computes per-sample losses: the Huber loss of each error, scaled by
/// that sample's importance weight.
pub fn compute_weighted_losses(q: &Vec<i64>, targets: &Vec<i64>, weights: &Vec<u64>) -> (l: Vec<
    i64,
>)
    requires
        q@.len() == targets@.len(),
        weights@.len() == q@.len(),
        forall|k: int| 0 <= k < weights@.len() ==> (#[trigger] weights@[k]) <= FIXED_ONE,
    ensures
        l@.len() == q@.len(),
        forall|k: int|
            0 <= k < q@.len() ==> (#[trigger] l@[k]) == smul_frac_spec(
                huber_spec(clamp_i64_spec(q@[k] - targets@[k])),
                weights@[k],
            ),
{
    let mut l: Vec<i64> = Vec::new();
    let mut k: usize = 0;
    while k < q.len()
        invariant
            q@.len() == targets@.len(),
            weights@.len() == q@.len(),
            forall|m: int| 0 <= m < weights@.len() ==> (#[trigger] weights@[m]) <= FIXED_ONE,
            k <= q@.len(),
            l@.len() == k,
            forall|m: int|
                0 <= m < k ==> (#[trigger] l@[m]) == smul_frac_spec(
                    huber_spec(clamp_i64_spec(q@[m] - targets@[m])),
                    weights@[m],
                ),
        decreases q@.len() - k,
    {
        let d = crate::fixed::sat_sub_i64(q[k], targets[k]);
        let h = huber(d);
        l.push(smul_frac(h, weights[k]));
        k = k + 1;
    }
    l
}

/// Picks, from a nonempty list of actions, one whose estimate in `out` is
/// at least every listed action's estimate; ties go to the first seen.
pub fn argmax_action<A: ActionType>(out: &Vec<i64>, actions: &Vec<A>) -> (a: A)
    requires
        actions@.len() >= 1,
        forall|k: int|
            0 <= k < actions@.len() ==> 0 <= (#[trigger] actions@[k].index_spec()) < out@.len(),
    ensures
        exists|k: int|
            0 <= k < actions@.len() && a.index_spec() == (#[trigger] actions@[k].index_spec()),
        forall|k: int|
            0 <= k < actions@.len() ==> out@[#[trigger] actions@[k].index_spec()] <= out@[a.index_spec()],
{
    let mut best: usize = 0;
    let mut best_q: i64 = out[actions[0].index()];
    let mut k: usize = 1;
    while k < actions.len()
        invariant
            1 <= k <= actions@.len(),
            best < k,
            forall|m: int|
                0 <= m < actions@.len() ==> 0 <= (#[trigger] actions@[m].index_spec())
                    < out@.len(),
            best_q == out@[actions@[best as int].index_spec()],
            forall|m: int| 0 <= m < k ==> out@[#[trigger] actions@[m].index_spec()] <= best_q,
        decreases actions@.len() - k,
    {
        let qk = out[actions[k].index()];
        if qk > best_q {
            best = k;
            best_q = qk;
        }
        k = k + 1;
    }
    actions[best].dup()
}

/// A prediction that equals its bootstrap target has a zero error, and a
/// zero error's fresh priority is exactly the exploration epsilon raised
/// to alpha (floored at one fixed-point unit).
pub proof fn lemma_exact_prediction_priority(q: i64, alpha: u64, epsilon: u64)
    requires
        epsilon <= FIXED_ONE,
    ensures
        clamp_i64_spec(q - q) == 0,
        priority_of(0, alpha, epsilon) == (if crate::fixed::fpow_spec(epsilon, alpha) < 1 {
            1u64
        } else {
            crate::fixed::fpow_spec(epsilon, alpha)
        }),
{
    assert(abs_i64_spec(0) == 0);
}

/// Gathers, for each row, the estimate of the action that was taken.
pub fn gather_q(out: &Vec<i64>, actions: &Vec<usize>, num_actions: usize) -> (q: Vec<i64>)
    requires
        num_actions >= 1,
        out@.len() == actions@.len() * num_actions,
        actions@.len() * (num_actions as int) <= usize::MAX,
        forall|k: int| 0 <= k < actions@.len() ==> (#[trigger] actions@[k]) < num_actions,
    ensures
        q@.len() == actions@.len(),
        forall|k: int|
            0 <= k < actions@.len() ==> (#[trigger] q@[k]) == out@[k * num_actions
                + actions@[k]],
{
    let n = actions.len();
    let na = num_actions;
    let mut q: Vec<i64> = Vec::new();
    let mut k: usize = 0;
    while k < n
        invariant
            n == actions@.len(),
            na == num_actions,
            na >= 1,
            out@.len() == n * na,
            n * (na as int) <= usize::MAX,
            forall|m: int| 0 <= m < n ==> (#[trigger] actions@[m]) < na,
            k <= n,
            q@.len() == k,
            forall|m: int|
                0 <= m < k ==> (#[trigger] q@[m]) == out@[m * (na as int) + actions@[m]],
        decreases n - k,
    {
        proof {
            assert((k + 1) * (na as int) == k * (na as int) + na) by (nonlinear_arith);
            assert((k + 1) * (na as int) <= n * (na as int)) by (nonlinear_arith)
                requires
                    k + 1 <= n,
                    na >= 0,
            ;
            assert(k * (na as int) >= 0) by (nonlinear_arith)
                requires
                    k >= 0,
                    na >= 0,
            ;
        }
        let a = actions[k];
        proof {
            assert(k * (na as int) + a < (k + 1) * (na as int)) by (nonlinear_arith)
                requires
                    a < na,
                    k >= 0,
            ;
        }
        q.push(out[k * na + a]);
        k = k + 1;
    }
    q
}

/// Runs episodes and training steps over a replay buffer, a critic, a
/// statistics recorder and an external numeric model.
#[verifier::reject_recursive_types(M)]
#[verifier::reject_recursive_types(S)]
#[verifier::reject_recursive_types(C)]
#[verifier::reject_recursive_types(R)]
#[verifier::reject_recursive_types(D)]
pub struct Trainer<
    M: Model,
    S: StateType,
    C: CriticType<State = S>,
    R: StatsRecorderType<State = S>,
    D: DataAugmenterType<State = S>,
> {
    config: Hyperparameters,
    critic: C,
    replay_buffer: ReplayBuffer<S, D>,
    stats_recorder: R,
    target_model: Option<M>,
    epoch_number: usize,
    frame_number: usize,
    per_beta: u64,
}

impl<
    M: Model,
    S: StateType,
    C: CriticType<State = S>,
    R: StatsRecorderType<State = S>,
    D: DataAugmenterType<State = S>,
> Trainer<M, S, C, R, D> {
    /// The trainer's knobs.
    pub closed spec fn config_spec(&self) -> Hyperparameters {
        self.config
    }

    /// Number of finished or running epochs.
    pub closed spec fn epoch_number_spec(&self) -> int {
        self.epoch_number as int
    }

    /// Number of environment steps taken overall.
    pub closed spec fn frame_number_spec(&self) -> int {
        self.frame_number as int
    }

    /// The current annealed importance-sampling exponent.
    pub closed spec fn per_beta_spec(&self) -> u64 {
        self.per_beta
    }

    /// Whether the target network exists yet.
    pub closed spec fn has_target_spec(&self) -> bool {
        self.target_model is Some
    }

    /// The replay buffer's occupancy.
    pub closed spec fn buffer_size_spec(&self) -> int {
        self.replay_buffer.size_spec()
    }

    /// Well-formedness: valid knobs, a matching well-formed buffer, an
    /// exponent within one, and batch shapes that fit the address space.
    pub closed spec fn wf(&self) -> bool {
        &&& self.config.wf()
        &&& self.replay_buffer.wf()
        &&& self.replay_buffer.capacity_spec() == self.config.replay_capacity as int
        &&& self.per_beta <= FIXED_ONE
        &&& S::num_actions_spec() >= 1
        &&& (self.config.batch_size as int) * S::num_features_spec() <= usize::MAX
        &&& (self.config.batch_size as int) * S::num_actions_spec() <= usize::MAX
    }

    /// A fresh trainer around the given collaborators.
    pub fn new(
        config: Hyperparameters,
        critic: C,
        data_augmenter: D,
        stats_recorder: R,
    ) -> (trainer: Trainer<M, S, C, R, D>)
        requires
            config.wf(),
            S::num_actions_spec() >= 1,
            (config.batch_size as int) * S::num_features_spec() <= usize::MAX,
            (config.batch_size as int) * S::num_actions_spec() <= usize::MAX,
        ensures
            trainer.wf(),
            trainer.config_spec() == config,
            trainer.epoch_number_spec() == 0,
            trainer.frame_number_spec() == 0,
            trainer.buffer_size_spec() == 0,
            trainer.per_beta_spec() == config.per_beta,
            !trainer.has_target_spec(),
    {
        Trainer {
            config,
            critic,
            replay_buffer: ReplayBuffer::new(data_augmenter, config.replay_capacity),
            stats_recorder,
            target_model: None,
            epoch_number: 0,
            frame_number: 0,
            per_beta: config.per_beta,
        }
    }

    /// A trainer restored from persisted state: the saved knobs and
    /// counters around a rebuilt replay buffer.
    pub fn from_session(
        config: Hyperparameters,
        critic: C,
        replay_buffer: ReplayBuffer<S, D>,
        stats_recorder: R,
        epoch_number: usize,
        frame_number: usize,
    ) -> (trainer: Trainer<M, S, C, R, D>)
        requires
            config.wf(),
            replay_buffer.wf(),
            replay_buffer.capacity_spec() == config.replay_capacity as int,
            S::num_actions_spec() >= 1,
            (config.batch_size as int) * S::num_features_spec() <= usize::MAX,
            (config.batch_size as int) * S::num_actions_spec() <= usize::MAX,
        ensures
            trainer.wf(),
            trainer.config_spec() == config,
            trainer.epoch_number_spec() == epoch_number as int,
            trainer.frame_number_spec() == frame_number as int,
            trainer.per_beta_spec() == config.per_beta,
            *trainer.replay_buffer_ref() == replay_buffer,
    {
        Trainer {
            config,
            critic,
            replay_buffer,
            stats_recorder,
            target_model: None,
            epoch_number,
            frame_number,
            per_beta: config.per_beta,
        }
    }

    /// The trainer's knobs.
    pub fn hyperparameters(&self) -> (h: Hyperparameters)
        ensures
            h == self.config_spec(),
    {
        self.config
    }

    /// The replay buffer.
    pub fn replay_buffer(&self) -> (b: &ReplayBuffer<S, D>)
        ensures
            b == self.replay_buffer_ref(),
            self.wf() ==> b.wf(),
            self.wf() ==> b.capacity_spec() == self.config_spec().replay_capacity as int,
    {
        &self.replay_buffer
    }

    /// The replay buffer as a spec value.
    pub closed spec fn replay_buffer_ref(&self) -> &ReplayBuffer<S, D> {
        &self.replay_buffer
    }

    /// Number of finished or running epochs.
    pub fn epoch_number(&self) -> (n: usize)
        ensures
            n as int == self.epoch_number_spec(),
    {
        self.epoch_number
    }

    /// Number of environment steps taken overall.
    pub fn frame_number(&self) -> (n: usize)
        ensures
            n as int == self.frame_number_spec(),
    {
        self.frame_number
    }

    /// Picks an action uniformly among the given legal ones.
    fn pick_random_action(actions: &Vec<S::Action>) -> (a: S::Action)
        requires
            actions@.len() >= 1,
        ensures
            exists|k: int|
                0 <= k < actions@.len() && a.index_spec() == (#[trigger] actions@[k].index_spec()),
    {
        let i = random_index_below(actions.len());
        actions[i].dup()
    }

    /// Picks the legal action with the highest predicted value, ties
    /// going to the first seen.
    fn pick_best_action(&self, state: &S, model: &M) -> (a: S::Action)
        requires
            exists|i: int|
                0 <= i < S::num_actions_spec() && #[trigger] state.action_allowed(i),
        ensures
            state.action_allowed(a.index_spec()),
            0 <= a.index_spec() < S::num_actions_spec(),
    {
        let features = state.as_features();
        let na = S::num_actions();
        let out = model.forward(&features, 1, na);
        let actions = state.possible_actions();
        proof {
            let i0 = choose|i: int|
                0 <= i < S::num_actions_spec() && #[trigger] state.action_allowed(i);
            assert(exists|k: int|
                0 <= k < actions@.len() && (#[trigger] actions@[k].index_spec()) == i0);
        }
        let a = argmax_action(&out, &actions);
        proof {
            let k = choose|k: int|
                0 <= k < actions@.len() && a.index_spec() == (#[trigger] actions@[k].index_spec());
            assert(state.action_allowed(actions@[k].index_spec()));
        }
        a
    }

    /// Epsilon-greedy selection: with probability epsilon a uniformly
    /// random legal action, otherwise the model's best legal action.
    fn pick_action(&self, state: &S, model: &M, epsilon: u64) -> (a: S::Action)
        requires
            exists|i: int|
                0 <= i < S::num_actions_spec() && #[trigger] state.action_allowed(i),
        ensures
            state.action_allowed(a.index_spec()),
            0 <= a.index_spec() < S::num_actions_spec(),
    {
        let draw = random_unit_fixed();
        if draw <= epsilon {
            let actions = state.possible_actions();
            proof {
                let i0 = choose|i: int|
                    0 <= i < S::num_actions_spec() && #[trigger] state.action_allowed(i);
                assert(exists|k: int|
                    0 <= k < actions@.len() && (#[trigger] actions@[k].index_spec()) == i0);
            }
            let a = Self::pick_random_action(&actions);
            proof {
                let k = choose|k: int|
                    0 <= k < actions@.len() && a.index_spec() == (
                    #[trigger] actions@[k].index_spec());
                assert(state.action_allowed(actions@[k].index_spec()));
            }
            a
        } else {
            self.pick_best_action(state, model)
        }
    }

    /// Runs one full episode: resets to a fresh initial state, advances
    /// with epsilon-greedy actions until the state is terminal (or the
    /// per-episode step bound is reached), stores every step, trains
    /// every `training_frequency` frames once the buffer can fill a
    /// batch, and resyncs the target network every
    /// `network_sync_frequency` frames. Returns the updated model and the
    /// epoch's statistics.
    pub fn run_epoch(&mut self, model: M) -> (r: (M, R::Stats))
        requires
            old(self).wf(),
            old(self).epoch_number_spec() < usize::MAX,
            old(self).frame_number_spec() + old(self).config_spec().max_episode_frames
                <= usize::MAX,
        ensures
            final(self).wf(),
            final(self).epoch_number_spec() == old(self).epoch_number_spec() + 1,
            final(self).config_spec() == old(self).config_spec(),
            final(self).has_target_spec(),
            old(self).frame_number_spec() <= final(self).frame_number_spec() <= old(
                self,
            ).frame_number_spec() + old(self).config_spec().max_episode_frames,
    {
        let mut state = S::initial_state();
        self.epoch_number = self.epoch_number + 1;
        let epsilon = epsilon_for(
            self.config.initial_epsilon,
            self.config.min_epsilon,
            self.config.epsilon_decay_frames,
            self.epoch_number,
        );
        self.stats_recorder.record_new_epoch();
        self.stats_recorder.record_epsilon(epsilon);
        if self.target_model.is_none() {
            self.target_model = Some(model.clone_model());
        }
        let mut model = model;
        let mut steps: usize = 0;
        let mut stuck = false;
        let ghost frame0 = self.frame_number as int;
        let max_steps = self.config.max_episode_frames;
        while steps < max_steps && !stuck && !state.is_terminal()
            invariant
                self.wf(),
                self.config == old(self).config,
                self.epoch_number as int == old(self).epoch_number_spec() + 1,
                self.target_model is Some,
                steps <= max_steps,
                max_steps == self.config.max_episode_frames,
                self.frame_number as int == frame0 + steps,
                frame0 + max_steps <= usize::MAX,
            decreases max_steps - steps,
        {
            self.frame_number = self.frame_number + 1;
            steps = steps + 1;
            let actions = state.possible_actions();
            if actions.len() == 0 {
                stuck = true;
            } else {
                proof {
                    assert(state.action_allowed(actions@[0].index_spec()));
                }
                let action = self.pick_action(&state, &model, epsilon);
                let next_state = state.advance(&action);
                let reward = self.critic.reward(&state, &action, &next_state);
                self.replay_buffer.store(state, action, reward, next_state.duplicate());
                state = next_state;
                self.stats_recorder.record_reward(reward);
                if self.replay_buffer.size() >= self.config.batch_size && self.frame_number
                    % self.config.training_frequency == 0 {
                    model = self.training_step(model);
                }
                if self.frame_number % self.config.network_sync_frequency == 0 {
                    self.target_model = Some(model.clone_model());
                }
            }
        }
        self.stats_recorder.record_final_state(&state);
        let size = self.replay_buffer.size();
        self.stats_recorder.record_replay_buffer_size(size);
        let stats = self.stats_recorder.stats();
        (model, stats)
    }

    /// One training step: anneals the importance exponent, draws a
    /// stratified prioritized batch, computes bootstrap targets from the
    /// target network with illegal successor actions excluded, feeds the
    /// error magnitudes back as fresh priorities, and hands the weighted
    /// Huber losses to the model for one optimizer step.
    pub fn training_step(&mut self, model: M) -> (m: M)
        requires
            old(self).wf(),
            old(self).has_target_spec(),
            old(self).config_spec().batch_size as int <= old(self).buffer_size_spec(),
        ensures
            final(self).wf(),
            final(self).has_target_spec(),
            final(self).config_spec() == old(self).config_spec(),
            final(self).epoch_number_spec() == old(self).epoch_number_spec(),
            final(self).frame_number_spec() == old(self).frame_number_spec(),
            final(self).buffer_size_spec() == old(self).buffer_size_spec(),
            final(self).per_beta_spec() == beta_anneal_spec(
                old(self).per_beta_spec(),
                old(self).config_spec().per_beta_increment,
                old(self).epoch_number_spec(),
            ),
            final(self).replay_buffer_ref()@ == old(self).replay_buffer_ref()@,
    {
        proof {
            assert((self.config.per_beta_increment as int) * (self.epoch_number as int)
                < 0x1_0000_0000_0000_0000_0000_0000_0000_0000 - 0x1_0000_0000_0000_0000)
                by (nonlinear_arith)
                requires
                    self.config.per_beta_increment <= 0xFFFF_FFFF_FFFF_FFFF,
                    self.epoch_number <= 0xFFFF_FFFF_FFFF_FFFF,
            ;
        }
        let wide_beta: u128 = self.per_beta as u128 + self.config.per_beta_increment as u128
            * self.epoch_number as u128;
        self.per_beta = if wide_beta > FIXED_ONE as u128 {
            FIXED_ONE
        } else {
            wide_beta as u64
        };
        let batch = self.replay_buffer.sample(self.config.batch_size, self.per_beta);
        let na = S::num_actions();
        let nf = S::num_features();
        let n = self.config.batch_size;
        let tb = TrainingBatch::from(&batch.transitions, na, nf);
        let out = model.forward(&tb.states, n, na);
        let q = gather_q(&out, &tb.actions, na);
        let target = match &self.target_model {
            Some(t) => t,
            None => {
                proof {
                    assert(false);
                }
                &model
            },
        };
        let tq = target.forward(&tb.next_states, n, na);
        let targets = compute_td_targets(
            &tb.rewards,
            &tb.is_terminal,
            &tq,
            &tb.invalid_actions_mask,
            na,
            self.config.discount_factor,
        );
        let errors = compute_td_errors(&q, &targets);
        self.replay_buffer.update_priorities(
            &batch.indices,
            &errors,
            self.config.per_alpha,
            self.config.per_epsilon,
        );
        let losses = compute_weighted_losses(&q, &targets, &batch.weights);
        model.apply_gradient_step(&losses, self.config.learning_rate)
    }
}

} // verus!
