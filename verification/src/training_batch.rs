//! Flattening a sampled batch of transitions into the dense arrays a
//! numeric model consumes.

use vstd::prelude::*;

use crate::replay_buffer::StateTransition;

verus! {

/// Row `k` of width `w` in a flattened sequence.
pub open spec fn row_slice_u32(s: Seq<u32>, k: int, w: int) -> Seq<u32> {
    s.subrange(k * w, (k + 1) * w)
}

/// Row `k` of width `w` in a flattened mask sequence.
pub open spec fn row_slice_bool(s: Seq<bool>, k: int, w: int) -> Seq<bool> {
    s.subrange(k * w, (k + 1) * w)
}

/// A batch of transitions in dense column form: concatenated feature
/// rows, one action index, reward and terminal flag per row, and the
/// concatenated masks of illegal successor actions.
pub struct TrainingBatch {
    pub states: Vec<u32>,
    pub actions: Vec<usize>,
    pub invalid_actions_mask: Vec<bool>,
    pub rewards: Vec<i64>,
    pub next_states: Vec<u32>,
    pub is_terminal: Vec<bool>,
}

impl TrainingBatch {
    /// Flattens the given transitions: row `k` of every column comes from
    /// `records[k]`.
    pub fn from(records: &Vec<StateTransition>, num_actions: usize, num_features: usize) -> (b:
        TrainingBatch)
        requires
            forall|k: int|
                0 <= k < records@.len() ==> (#[trigger] records@[k]@).valid(
                    num_actions as int,
                    num_features as int,
                ),
            records@.len() * (num_features as int) <= usize::MAX,
            records@.len() * (num_actions as int) <= usize::MAX,
        ensures
            b.states@.len() == records@.len() * num_features,
            b.next_states@.len() == records@.len() * num_features,
            b.invalid_actions_mask@.len() == records@.len() * num_actions,
            b.actions@.len() == records@.len(),
            b.rewards@.len() == records@.len(),
            b.is_terminal@.len() == records@.len(),
            forall|k: int|
                0 <= k < records@.len() ==> #[trigger] row_slice_u32(
                    b.states@,
                    k,
                    num_features as int,
                ) == records@[k]@.state,
            forall|k: int|
                0 <= k < records@.len() ==> #[trigger] row_slice_u32(
                    b.next_states@,
                    k,
                    num_features as int,
                ) == records@[k]@.next_state,
            forall|k: int|
                0 <= k < records@.len() ==> #[trigger] row_slice_bool(
                    b.invalid_actions_mask@,
                    k,
                    num_actions as int,
                ) == records@[k]@.invalid_actions_mask,
            forall|k: int|
                0 <= k < records@.len() ==> (#[trigger] b.actions@[k]) as int
                    == records@[k]@.action,
            forall|k: int|
                0 <= k < records@.len() ==> (#[trigger] b.actions@[k]) < num_actions,
            forall|k: int|
                0 <= k < records@.len() ==> (#[trigger] b.rewards@[k]) as int
                    == records@[k]@.reward,
            forall|k: int|
                0 <= k < records@.len() ==> (#[trigger] b.is_terminal@[k])
                    == records@[k]@.is_terminal,
    {
        let n = records.len();
        let nf = num_features;
        let na = num_actions;
        let mut states: Vec<u32> = Vec::new();
        let mut actions: Vec<usize> = Vec::new();
        let mut invalid_actions_mask: Vec<bool> = Vec::new();
        let mut rewards: Vec<i64> = Vec::new();
        let mut next_states: Vec<u32> = Vec::new();
        let mut is_terminal: Vec<bool> = Vec::new();
        let mut k: usize = 0;
        while k < n
            invariant
                n == records@.len(),
                nf == num_features,
                na == num_actions,
                k <= n,
                forall|m: int|
                    0 <= m < n ==> (#[trigger] records@[m]@).valid(na as int, nf as int),
                n * (nf as int) <= usize::MAX,
                n * (na as int) <= usize::MAX,
                states@.len() == k * nf,
                next_states@.len() == k * nf,
                invalid_actions_mask@.len() == k * na,
                actions@.len() == k,
                rewards@.len() == k,
                is_terminal@.len() == k,
                forall|m: int|
                    0 <= m < k ==> #[trigger] row_slice_u32(states@, m, nf as int)
                        == records@[m]@.state,
                forall|m: int|
                    0 <= m < k ==> #[trigger] row_slice_u32(next_states@, m, nf as int)
                        == records@[m]@.next_state,
                forall|m: int|
                    0 <= m < k ==> #[trigger] row_slice_bool(invalid_actions_mask@, m, na as int)
                        == records@[m]@.invalid_actions_mask,
                forall|m: int| 0 <= m < k ==> (#[trigger] actions@[m]) as int == records@[m]@.action,
                forall|m: int| 0 <= m < k ==> (#[trigger] actions@[m]) < na,
                forall|m: int| 0 <= m < k ==> (#[trigger] rewards@[m]) as int == records@[m]@.reward,
                forall|m: int|
                    0 <= m < k ==> (#[trigger] is_terminal@[m]) == records@[m]@.is_terminal,
            decreases n - k,
        {
            proof {
                assert((k + 1) * (nf as int) == k * (nf as int) + nf) by (nonlinear_arith);
                assert((k + 1) * (na as int) == k * (na as int) + na) by (nonlinear_arith);
                assert((k + 1) * (nf as int) <= n * (nf as int)) by (nonlinear_arith)
                    requires
                        k + 1 <= n,
                        nf >= 0,
                ;
                assert((k + 1) * (na as int) <= n * (na as int)) by (nonlinear_arith)
                    requires
                        k + 1 <= n,
                        na >= 0,
                ;
                assert(k * (nf as int) >= 0) by (nonlinear_arith)
                    requires
                        k >= 0,
                        nf >= 0,
                ;
                assert(k * (na as int) >= 0) by (nonlinear_arith)
                    requires
                        k >= 0,
                        na >= 0,
                ;
            }
            let ghost states0 = states@;
            let ghost next0 = next_states@;
            let ghost mask0 = invalid_actions_mask@;
            let record = &records[k];
            proof {
                assert(records@[k as int]@.valid(na as int, nf as int));
                assert(record.state@.len() == nf);
                assert(record.next_state@.len() == nf);
                assert(record.invalid_actions_mask@.len() == na);
                assert(records@[k as int]@.action < na);
            }
            let mut j: usize = 0;
            while j < record.state.len()
                invariant
                    j <= record.state@.len(),
                    states@ == states0 + record.state@.subrange(0, j as int),
                decreases record.state@.len() - j,
            {
                states.push(record.state[j]);
                proof {
                    assert(states@ =~= states0 + record.state@.subrange(0, j as int + 1));
                }
                j = j + 1;
            }
            let mut j2: usize = 0;
            while j2 < record.next_state.len()
                invariant
                    j2 <= record.next_state@.len(),
                    next_states@ == next0 + record.next_state@.subrange(0, j2 as int),
                decreases record.next_state@.len() - j2,
            {
                next_states.push(record.next_state[j2]);
                proof {
                    assert(next_states@ =~= next0 + record.next_state@.subrange(0, j2 as int + 1));
                }
                j2 = j2 + 1;
            }
            let mut j3: usize = 0;
            while j3 < record.invalid_actions_mask.len()
                invariant
                    j3 <= record.invalid_actions_mask@.len(),
                    invalid_actions_mask@ == mask0 + record.invalid_actions_mask@.subrange(
                        0,
                        j3 as int,
                    ),
                decreases record.invalid_actions_mask@.len() - j3,
            {
                invalid_actions_mask.push(record.invalid_actions_mask[j3]);
                proof {
                    assert(invalid_actions_mask@ =~= mask0
                        + record.invalid_actions_mask@.subrange(0, j3 as int + 1));
                }
                j3 = j3 + 1;
            }
            actions.push(record.action);
            rewards.push(record.reward);
            is_terminal.push(record.is_terminal);
            k = k + 1;
            proof {
                assert(record.state@.subrange(0, record.state@.len() as int) =~= record.state@);
                assert(record.next_state@.subrange(0, record.next_state@.len() as int)
                    =~= record.next_state@);
                assert(record.invalid_actions_mask@.subrange(
                    0,
                    record.invalid_actions_mask@.len() as int,
                ) =~= record.invalid_actions_mask@);
                assert forall|m: int| 0 <= m < k implies #[trigger] row_slice_u32(
                    states@,
                    m,
                    nf as int,
                ) == records@[m]@.state by {
                    assert(m * (nf as int) >= 0) by (nonlinear_arith)
                        requires
                            m >= 0,
                            nf >= 0,
                    ;
                    assert((m + 1) * (nf as int) == m * (nf as int) + nf) by (nonlinear_arith);
                    assert((m + 1) * (nf as int) <= (k - 1) * (nf as int)
                        || m == k - 1) by (nonlinear_arith)
                        requires
                            m + 1 <= k - 1 || m == k - 1,
                            nf >= 0,
                    ;
                    if m < k - 1 {
                        assert(row_slice_u32(states@, m, nf as int) =~= row_slice_u32(
                            states0,
                            m,
                            nf as int,
                        ));
                    } else {
                        assert(row_slice_u32(states@, m, nf as int) =~= records@[m]@.state);
                    }
                }
                assert forall|m: int| 0 <= m < k implies #[trigger] row_slice_u32(
                    next_states@,
                    m,
                    nf as int,
                ) == records@[m]@.next_state by {
                    assert(m * (nf as int) >= 0) by (nonlinear_arith)
                        requires
                            m >= 0,
                            nf >= 0,
                    ;
                    assert((m + 1) * (nf as int) == m * (nf as int) + nf) by (nonlinear_arith);
                    assert((m + 1) * (nf as int) <= (k - 1) * (nf as int)
                        || m == k - 1) by (nonlinear_arith)
                        requires
                            m + 1 <= k - 1 || m == k - 1,
                            nf >= 0,
                    ;
                    if m < k - 1 {
                        assert(row_slice_u32(next_states@, m, nf as int) =~= row_slice_u32(
                            next0,
                            m,
                            nf as int,
                        ));
                    } else {
                        assert(row_slice_u32(next_states@, m, nf as int)
                            =~= records@[m]@.next_state);
                    }
                }
                assert forall|m: int| 0 <= m < k implies #[trigger] row_slice_bool(
                    invalid_actions_mask@,
                    m,
                    na as int,
                ) == records@[m]@.invalid_actions_mask by {
                    assert(m * (na as int) >= 0) by (nonlinear_arith)
                        requires
                            m >= 0,
                            na >= 0,
                    ;
                    assert((m + 1) * (na as int) == m * (na as int) + na) by (nonlinear_arith);
                    assert((m + 1) * (na as int) <= (k - 1) * (na as int)
                        || m == k - 1) by (nonlinear_arith)
                        requires
                            m + 1 <= k - 1 || m == k - 1,
                            na >= 0,
                    ;
                    if m < k - 1 {
                        assert(row_slice_bool(invalid_actions_mask@, m, na as int)
                            =~= row_slice_bool(mask0, m, na as int));
                    } else {
                        assert(row_slice_bool(invalid_actions_mask@, m, na as int)
                            =~= records@[m]@.invalid_actions_mask);
                    }
                }
            }
        }
        TrainingBatch { states, actions, invalid_actions_mask, rewards, next_states, is_terminal }
    }
}

} // verus!
