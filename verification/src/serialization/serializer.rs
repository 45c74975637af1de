//! Producing the on-disk form of a session: the session document's
//! contents and the named, compressed replay chunks. Writing the files,
//! and the model weights (which the external model capability owns), are
//! left to the caller.

use vstd::prelude::*;

use crate::critic::CriticType;
use crate::data_augmenter::DataAugmenterType;
use crate::model::Model;
use crate::replay_buffer::{ReplayBuffer, TransitionView};
use crate::serialization::codec::{enc_transitions, encode_transitions};
use crate::serialization::compress::{compress_bytes, zstd_of};
use crate::serialization::training_config::{ReplayBufferConfig, TrainingConfig, TrainingInfo};
use crate::state::StateType;
use crate::stats::StatsRecorderType;
use crate::trainer::Trainer;

verus! {

/// Number of transitions per persisted chunk.
pub const CHUNK_SIZE: usize = 65536;

/// Why a session could not be planned.
#[derive(Copy, Clone, PartialEq, Eq, Structural, Debug)]
pub enum SessionSerializationError {
    /// The destination directory already has entries.
    PathNotEmpty,
}

/// One replay chunk, ready to be written under its file name.
pub struct ChunkFile {
    pub name: Vec<u8>,
    pub data: Vec<u8>,
}

/// Everything a session directory holds, but the opaque model weights.
pub struct SessionPlan {
    pub config: TrainingConfig,
    pub chunks: Vec<ChunkFile>,
}

/// The `i`-th (zero-based) chunk's slice of the stored transitions.
pub open spec fn segment_of(slots: Seq<TransitionView>, i: int) -> Seq<TransitionView> {
    slots.subrange(
        i * (CHUNK_SIZE as int),
        if (i + 1) * (CHUNK_SIZE as int) <= slots.len() {
            (i + 1) * (CHUNK_SIZE as int)
        } else {
            slots.len() as int
        },
    )
}

/// Number of chunks a buffer of the given occupancy needs.
pub open spec fn num_chunks(len: int) -> int {
    (len + (CHUNK_SIZE as int) - 1) / (CHUNK_SIZE as int)
}

/// The file name of chunk `n` (one-based): the number zero-padded to five
/// digits, then the chunk extension. Zero-padding makes lexicographic
/// order agree with numeric order.
pub open spec fn spec_chunk_name(n: int) -> Seq<u8> {
    seq![
        (48 + (n / 10000) % 10) as u8,
        (48 + (n / 1000) % 10) as u8,
        (48 + (n / 100) % 10) as u8,
        (48 + (n / 10) % 10) as u8,
        (48 + n % 10) as u8,
        46u8,
        99u8,
        104u8,
        117u8,
        110u8,
        107u8,
    ]
}

/// Builds the file name of chunk `n`.
pub fn chunk_file_name(n: u32) -> (r: Vec<u8>)
    requires
        n < 100000,
    ensures
        r@ == spec_chunk_name(n as int),
{
    let mut r: Vec<u8> = Vec::new();
    r.push((48 + (n / 10000) % 10) as u8);
    r.push((48 + (n / 1000) % 10) as u8);
    r.push((48 + (n / 100) % 10) as u8);
    r.push((48 + (n / 10) % 10) as u8);
    r.push((48 + n % 10) as u8);
    r.push(46);
    r.push(99);
    r.push(104);
    r.push(117);
    r.push(110);
    r.push(107);
    proof {
        assert(r@ =~= spec_chunk_name(n as int));
    }
    r
}

/// Whether a destination directory is empty, given its entries.
pub fn is_path_empty(entries: &Vec<Vec<u8>>) -> (r: bool)
    ensures
        r == (entries@.len() == 0),
{
    entries.len() == 0
}

/// Plans the on-disk form of a session.
pub struct TrainingSerializer {}

impl TrainingSerializer {
    /// The session document's contents for the given trainer.
    pub fn serialize_config<
        M: Model,
        S: StateType,
        C: CriticType<State = S>,
        R: StatsRecorderType<State = S>,
        D: DataAugmenterType<State = S>,
    >(trainer: &Trainer<M, S, C, R, D>) -> (c: TrainingConfig)
        ensures
            c.hyperparameters == trainer.config_spec(),
            c.replay_buffer.capacity as int == trainer.replay_buffer_ref().capacity_spec(),
            c.replay_buffer.size as int == trainer.replay_buffer_ref().size_spec(),
            c.replay_buffer.write_position as int
                == trainer.replay_buffer_ref().write_position_spec(),
            c.training_info.epoch_number as int == trainer.epoch_number_spec(),
            c.training_info.frame_number as int == trainer.frame_number_spec(),
    {
        let buffer = trainer.replay_buffer();
        TrainingConfig::with(
            trainer.hyperparameters(),
            ReplayBufferConfig::with(buffer.capacity(), buffer.size(), buffer.write_position()),
            TrainingInfo::with(trainer.epoch_number(), trainer.frame_number()),
        )
    }

    /// The named, compressed chunks of the buffer's contents, in slot
    /// order, sixty-five thousand five hundred thirty-six transitions per
    /// chunk.
    #[verifier::rlimit(100)]
    #[verifier::spinoff_prover]
    pub fn serialize_replay_buffer<S: StateType, D: DataAugmenterType<State = S>>(
        replay_buffer: &ReplayBuffer<S, D>,
    ) -> (r: Vec<ChunkFile>)
        requires
            replay_buffer.wf(),
            S::num_features_spec() <= 0xFFFF_FFFF,
            S::num_actions_spec() <= 0xFFFF_FFFF,
        ensures
            r@.len() == num_chunks(replay_buffer.size_spec()),
            forall|i: int|
                0 <= i < r@.len() ==> (#[trigger] r@[i].name@) == spec_chunk_name(i + 1),
            forall|i: int|
                0 <= i < r@.len() ==> (#[trigger] r@[i].data@) == zstd_of(
                    enc_transitions(segment_of(replay_buffer@, i)),
                ),
    {
        proof {
            replay_buffer.lemma_wf_facts();
        }
        let size = replay_buffer.size();
        let mut chunks: Vec<ChunkFile> = Vec::new();
        let mut chunk_start: usize = 0;
        let mut chunk_number: u32 = 1;
        while chunk_start < size
            invariant
                replay_buffer.wf(),
                S::num_features_spec() <= 0xFFFF_FFFF,
                S::num_actions_spec() <= 0xFFFF_FFFF,
                size as int == replay_buffer.size_spec(),
                size <= 0x4000_0000,
                chunk_start == (chunk_number - 1) * (CHUNK_SIZE as int),
                chunk_number >= 2 ==> (chunk_number - 2) * (CHUNK_SIZE as int) < size,
                1 <= chunk_number <= 16385,
                chunks@.len() == chunk_number - 1,
                chunk_start <= size + CHUNK_SIZE,
                forall|i: int|
                    0 <= i < chunks@.len() ==> (#[trigger] chunks@[i].name@) == spec_chunk_name(
                        i + 1,
                    ),
                forall|i: int|
                    0 <= i < chunks@.len() ==> (#[trigger] chunks@[i].data@) == zstd_of(
                        enc_transitions(segment_of(replay_buffer@, i)),
                    ),
            decreases size + CHUNK_SIZE - chunk_start,
        {
            proof {
                assert((chunk_number as int) * (CHUNK_SIZE as int) == (chunk_number - 1) * (
                CHUNK_SIZE as int) + CHUNK_SIZE) by (nonlinear_arith);
                assert((chunk_number - 1) * (CHUNK_SIZE as int) >= 0) by (nonlinear_arith)
                    requires
                        chunk_number >= 1,
                ;
            }
            let ts = replay_buffer.transitions(chunk_start, chunk_start + CHUNK_SIZE);
            proof {
                replay_buffer.lemma_wf_facts();
                assert(crate::replay_buffer::views_of(ts@) =~= segment_of(
                    replay_buffer@,
                    chunk_number - 1,
                ));
                assert forall|k: int| 0 <= k < ts@.len() implies crate::serialization::codec::encodable(
                    (#[trigger] ts@[k])@,
                ) by {
                    assert(ts@[k]@ == replay_buffer@[chunk_start + k]);
                    assert(replay_buffer@[chunk_start + k].valid(
                        S::num_actions_spec(),
                        S::num_features_spec(),
                    ));
                }
            }
            let encoded = encode_transitions(&ts);
            let compressed = compress_bytes(&encoded);
            let name = chunk_file_name(chunk_number);
            let ghost seg = segment_of(replay_buffer@, chunk_number - 1);
            let ghost frame = compressed@;
            chunks.push(ChunkFile { name, data: compressed });
            chunk_start = chunk_start + CHUNK_SIZE;
            chunk_number = chunk_number + 1;
            proof {
                assert((chunk_number - 1) * (CHUNK_SIZE as int) == (chunk_number - 2) * (
                CHUNK_SIZE as int) + CHUNK_SIZE) by (nonlinear_arith);
                assert(chunks@[chunks@.len() - 1].data@ == frame);
                assert(frame == zstd_of(enc_transitions(seg)));
            }
        }
        proof {
            lemma_num_chunks(size as int, chunk_number - 1);
        }
        chunks
    }

    /// Plans a whole session: refuses a destination that is not empty,
    /// then bundles the session document's contents with the replay
    /// chunks. The model weights are serialized by the model capability
    /// itself.
    pub fn serialize<
        M: Model,
        S: StateType,
        C: CriticType<State = S>,
        R: StatsRecorderType<State = S>,
        D: DataAugmenterType<State = S>,
    >(trainer: &Trainer<M, S, C, R, D>, dir_entries: &Vec<Vec<u8>>) -> (r: Result<
        SessionPlan,
        SessionSerializationError,
    >)
        requires
            trainer.wf(),
            S::num_features_spec() <= 0xFFFF_FFFF,
            S::num_actions_spec() <= 0xFFFF_FFFF,
        ensures
            r is Ok <==> dir_entries@.len() == 0,
            r is Err ==> r == Err::<
                SessionPlan,
                SessionSerializationError,
            >(SessionSerializationError::PathNotEmpty),
            r is Ok ==> {
                let plan = r->Ok_0;
                &&& plan.config.hyperparameters == trainer.config_spec()
                &&& plan.config.replay_buffer.size as int
                    == trainer.replay_buffer_ref().size_spec()
                &&& plan.config.replay_buffer.capacity as int
                    == trainer.replay_buffer_ref().capacity_spec()
                &&& plan.config.replay_buffer.write_position as int
                    == trainer.replay_buffer_ref().write_position_spec()
                &&& plan.config.training_info.epoch_number as int == trainer.epoch_number_spec()
                &&& plan.config.training_info.frame_number as int == trainer.frame_number_spec()
                &&& plan.chunks@.len() == num_chunks(trainer.replay_buffer_ref().size_spec())
                &&& forall|i: int|
                    0 <= i < plan.chunks@.len() ==> (#[trigger] plan.chunks@[i].name@)
                        == spec_chunk_name(i + 1)
                &&& forall|i: int|
                    0 <= i < plan.chunks@.len() ==> (#[trigger] plan.chunks@[i].data@) == zstd_of(
                        enc_transitions(segment_of(trainer.replay_buffer_ref()@, i)),
                    )
            },
    {
        if !is_path_empty(dir_entries) {
            return Err(SessionSerializationError::PathNotEmpty);
        }
        let config = Self::serialize_config(trainer);
        let chunks = Self::serialize_replay_buffer(trainer.replay_buffer());
        Ok(SessionPlan { config, chunks })
    }
}

/// After the last partial chunk, the chunk count is exactly the ceiling
/// of the occupancy over the chunk size.
proof fn lemma_num_chunks(size: int, produced: int)
    requires
        0 <= size,
        produced >= 0,
        (produced == 0 && size == 0) || ((produced - 1) * (CHUNK_SIZE as int) < size && produced
            * (CHUNK_SIZE as int) >= size),
    ensures
        produced == num_chunks(size),
{
    let c = CHUNK_SIZE as int;
    if produced == 0 && size == 0 {
        assert(num_chunks(0) == 0);
    } else {
        assert(num_chunks(size) == (size + c - 1) / c);
        assert((produced - 1) * c <= size - 1);
        assert(produced * c >= size);
        assert((produced - 1) * c + (c - 1) <= size + c - 2);
        assert(size + c - 1 <= produced * c + c - 1);
        assert((size + c - 1) / c >= produced) by {
            vstd::arithmetic::div_mod::lemma_div_multiples_vanish(produced, c);
            assert(produced * c == c * produced) by (nonlinear_arith);
            vstd::arithmetic::div_mod::lemma_div_is_ordered(produced * c, size + c - 1, c);
        }
        assert((size + c - 1) / c <= produced) by {
            assert(size + c - 1 < (produced + 1) * c);
            assert((produced + 1) * c == c * (produced + 1)) by (nonlinear_arith);
            if (size + c - 1) / c > produced {
                vstd::arithmetic::div_mod::lemma_fundamental_div_mod(size + c - 1, c);
                vstd::arithmetic::div_mod::lemma_mod_bound(size + c - 1, c);
                assert(size + c - 1 >= (produced + 1) * c) by (nonlinear_arith)
                    requires
                        (size + c - 1) == c * ((size + c - 1) / c) + (size + c - 1) % c,
                        (size + c - 1) % c >= 0,
                        (size + c - 1) / c >= produced + 1,
                        c > 0,
                ;
            }
        }
    }
}

} // verus!
