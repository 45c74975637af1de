//! Restoring a session: chunk discovery and ordering, decompression,
//! decoding, validation, and the rebuilt replay buffer and trainer.
//!
//! Priorities are not persisted, so every restored transition starts at
//! the default priority rather than its learned one.

use vstd::prelude::*;

use crate::critic::CriticType;
use crate::data_augmenter::DataAugmenterType;
use crate::fixed::FIXED_ONE;
use crate::model::Model;
use crate::replay_buffer::{views_of, ReplayBuffer, StateTransition, TransitionView};
use crate::serialization::codec::{
    dec_transitions, decode_transitions, enc_transitions, encodable, lemma_codec_round_trip,
};
use crate::serialization::compress::{decompress_bytes, zstd_of};
use crate::serialization::serializer::{num_chunks, segment_of, spec_chunk_name, CHUNK_SIZE};
use crate::serialization::training_config::TrainingConfig;
use crate::state::StateType;
use crate::stats::StatsRecorderType;
use crate::sum_tree::{is_pow_2, CAPACITY_LIMIT};
use crate::trainer::{check_hyperparameters, is_power_of_two_check, Trainer};

verus! {

/// Why a session could not be restored.
#[derive(Copy, Clone, PartialEq, Eq, Structural, Debug)]
pub enum SessionDeserializationError {
    /// A chunk would not decompress, decode, or fit the domain's shape.
    CorruptChunk,
    /// The session document contradicts itself or the chunk contents.
    InvalidConfig,
}

/// Byte-level lexicographic order, with a prefix before its extensions.
pub open spec fn lex_le(a: Seq<u8>, b: Seq<u8>) -> bool
    decreases a.len(),
{
    if a.len() == 0 {
        true
    } else if b.len() == 0 {
        false
    } else if a[0] < b[0] {
        true
    } else if a[0] > b[0] {
        false
    } else {
        lex_le(a.skip(1), b.skip(1))
    }
}

/// Compares two names lexicographically.
pub fn lex_le_check(a: &Vec<u8>, b: &Vec<u8>) -> (r: bool)
    ensures
        r == lex_le(a@, b@),
    decreases a@.len(),
{
    let mut i: usize = 0;
    proof {
        assert(a@.skip(0) =~= a@);
        assert(b@.skip(0) =~= b@);
    }
    while i < a.len() && i < b.len()
        invariant
            i <= a@.len(),
            i <= b@.len(),
            lex_le(a@, b@) == lex_le(a@.skip(i as int), b@.skip(i as int)),
        decreases a@.len() - i,
    {
        let ghost sa = a@.skip(i as int);
        let ghost sb = b@.skip(i as int);
        proof {
            assert(sa[0] == a@[i as int]);
            assert(sb[0] == b@[i as int]);
            assert(sa.skip(1) =~= a@.skip(i as int + 1));
            assert(sb.skip(1) =~= b@.skip(i as int + 1));
        }
        if a[i] < b[i] {
            return true;
        }
        if a[i] > b[i] {
            return false;
        }
        i = i + 1;
    }
    proof {
        if i == a@.len() {
            assert(a@.skip(i as int).len() == 0);
        } else {
            assert(b@.skip(i as int).len() == 0);
            assert(a@.skip(i as int).len() > 0);
        }
    }
    i == a.len()
}

/// The chunk file extension, as bytes.
pub open spec fn chunk_suffix() -> Seq<u8> {
    seq![46u8, 99u8, 104u8, 117u8, 110u8, 107u8]
}

/// Whether a name ends in the chunk extension.
pub open spec fn has_chunk_suffix(s: Seq<u8>) -> bool {
    s.len() >= 6 && s.subrange(s.len() - 6, s.len() as int) == chunk_suffix()
}

/// Checks a name for the chunk extension.
pub fn has_chunk_suffix_check(s: &Vec<u8>) -> (r: bool)
    ensures
        r == has_chunk_suffix(s@),
{
    if s.len() < 6 {
        return false;
    }
    let n = s.len();
    let r = s[n - 6] == 46 && s[n - 5] == 99 && s[n - 4] == 104 && s[n - 3] == 117 && s[n - 2]
        == 110 && s[n - 1] == 107;
    proof {
        if r {
            assert(s@.subrange(s@.len() - 6, s@.len() as int) =~= chunk_suffix());
        } else {
            if s@.subrange(s@.len() - 6, s@.len() as int) == chunk_suffix() {
                assert(s@.subrange(s@.len() - 6, s@.len() as int)[0] == s@[s@.len() - 6]);
                assert(s@.subrange(s@.len() - 6, s@.len() as int)[1] == s@[s@.len() - 5]);
                assert(s@.subrange(s@.len() - 6, s@.len() as int)[2] == s@[s@.len() - 4]);
                assert(s@.subrange(s@.len() - 6, s@.len() as int)[3] == s@[s@.len() - 3]);
                assert(s@.subrange(s@.len() - 6, s@.len() as int)[4] == s@[s@.len() - 2]);
                assert(s@.subrange(s@.len() - 6, s@.len() as int)[5] == s@[s@.len() - 1]);
                assert(false);
            }
        }
    }
    r
}

/// Copies one name.
fn clone_name(v: &Vec<u8>) -> (r: Vec<u8>)
    ensures
        r@ == v@,
{
    let mut r: Vec<u8> = Vec::new();
    let mut i: usize = 0;
    while i < v.len()
        invariant
            i <= v@.len(),
            r@ == v@.subrange(0, i as int),
        decreases v@.len() - i,
    {
        r.push(v[i]);
        i = i + 1;
    }
    proof {
        assert(r@ =~= v@);
    }
    r
}

/// The byte contents of a list of names.
pub open spec fn name_views(s: Seq<Vec<u8>>) -> Seq<Seq<u8>> {
    Seq::new(s.len(), |i: int| s[i]@)
}

/// The names among the entries that carry the chunk extension, in entry
/// order.
pub open spec fn suffixed_names(s: Seq<Vec<u8>>) -> Seq<Seq<u8>>
    decreases s.len(),
{
    if s.len() == 0 {
        Seq::empty()
    } else if has_chunk_suffix(s.last()@) {
        suffixed_names(s.drop_last()).push(s.last()@)
    } else {
        suffixed_names(s.drop_last())
    }
}

/// Adjacent entries of a name list are in lexicographic order.
pub open spec fn names_sorted(s: Seq<Vec<u8>>) -> bool {
    forall|i: int| 0 <= i && i + 1 < s.len() ==> lex_le((#[trigger] s[i])@, s[i + 1]@)
}

/// Inserting at a position that respects the order keeps the list
/// sorted.
#[verifier::rlimit(100)]
#[verifier::spinoff_prover]
proof fn lemma_insert_keeps_order(before: Seq<Vec<u8>>, itemv: Vec<u8>, pos: int)
    requires
        0 <= pos <= before.len(),
        names_sorted(before),
        forall|i: int| 0 <= i < pos ==> lex_le((#[trigger] before[i])@, itemv@),
        pos < before.len() ==> lex_le(itemv@, (before[pos])@),
    ensures
        names_sorted(before.insert(pos, itemv)),
{
    let r = before.insert(pos, itemv);
    before.insert_ensures(pos, itemv);
    assert forall|i: int| 0 <= i && i + 1 < r.len() implies lex_le(
        (#[trigger] r[i])@,
        r[i + 1]@,
    ) by {
        if i + 1 < pos {
            assert(before.insert(pos, itemv)[i] == before[i]);
            assert(before.insert(pos, itemv)[i + 1] == before[i + 1]);
        } else if i + 1 == pos {
            assert(before.insert(pos, itemv)[i] == before[i]);
            assert(lex_le((before[i])@, itemv@));
            assert(before.insert(pos, itemv)[pos] == itemv);
        } else if i == pos {
            assert(before.insert(pos, itemv)[pos] == itemv);
            assert(before.insert(pos, itemv)[(i - 1) + 1 + 1] == before[i]);
        } else {
            assert(before.insert(pos, itemv)[(i - 1) + 1] == before[i - 1]);
            assert(before.insert(pos, itemv)[i + 1] == before[i]);
        }
    }
}

/// After an insertion the list holds the old elements and the new one.
#[verifier::rlimit(100)]
#[verifier::spinoff_prover]
proof fn lemma_insert_contents(before: Seq<Vec<u8>>, itemv: Vec<u8>, pos: int)
    requires
        0 <= pos <= before.len(),
    ensures
        before.insert(pos, itemv).len() == before.len() + 1,
        forall|i: int|
            0 <= i < before.insert(pos, itemv).len() ==> ((#[trigger] before.insert(
                pos,
                itemv,
            )[i])@ == itemv@ || exists|m: int|
                0 <= m < before.len() && before.insert(pos, itemv)[i]@ == (
                #[trigger] before[m])@),
        name_views(before.insert(pos, itemv)).to_multiset() == name_views(before).to_multiset()
            .insert(itemv@),
{
    broadcast use vstd::multiset::group_multiset_axioms;

    let r = before.insert(pos, itemv);
    before.insert_ensures(pos, itemv);
    assert(before.insert(pos, itemv)[pos] == itemv);
    assert(r[pos]@ == itemv@);
    assert forall|i: int| 0 <= i < r.len() implies ((#[trigger] r[i])@ == itemv@ || exists|m: int|
        0 <= m < before.len() && r[i]@ == (#[trigger] before[m])@) by {
        if i < pos {
            assert(before.insert(pos, itemv)[i] == before[i]);
        } else if i > pos {
            assert(before.insert(pos, itemv)[(i - 1) + 1] == before[i - 1]);
        }
    }
    let vb = name_views(before);
    let sub1 = vb.subrange(0, pos);
    let sub2 = vb.subrange(pos, vb.len() as int);
    assert(name_views(r) =~= sub1.push(itemv@) + sub2) by {
        assert forall|i: int| 0 <= i < r.len() implies name_views(r)[i] == (sub1.push(itemv@)
            + sub2)[i] by {
            if i < pos {
                assert(before.insert(pos, itemv)[i] == before[i]);
            } else if i > pos {
                assert(before.insert(pos, itemv)[(i - 1) + 1] == before[i - 1]);
            }
        }
    }
    assert(vb =~= sub1 + sub2);
    vstd::seq_lib::lemma_multiset_commutative(sub1.push(itemv@), sub2);
    vstd::seq_lib::lemma_multiset_commutative(sub1, sub2);
    sub1.to_multiset_ensures();
    assert(name_views(r).to_multiset() =~= vb.to_multiset().insert(itemv@));
}

/// Inserts one name into a sorted list, keeping it sorted; the elements
/// afterwards are the old ones plus the new one.
fn insert_sorted(r: &mut Vec<Vec<u8>>, item: Vec<u8>)
    requires
        names_sorted(old(r)@),
    ensures
        names_sorted(final(r)@),
        final(r)@.len() == old(r)@.len() + 1,
        forall|i: int|
            0 <= i < final(r)@.len() ==> ((#[trigger] final(r)@[i])@ == item@ || exists|m: int|
                0 <= m < old(r)@.len() && final(r)@[i]@ == (#[trigger] old(r)@[m])@),
        name_views(final(r)@).to_multiset() == name_views(old(r)@).to_multiset().insert(item@),
{
    let ghost itemv = item;
    let ghost before = r@;
    let mut pos: usize = 0;
    while pos < r.len() && lex_le_check(&r[pos], &item)
        invariant
            pos <= r@.len(),
            r@ == before,
            item == itemv,
            forall|i: int| 0 <= i < pos ==> lex_le((#[trigger] r@[i])@, itemv@),
        decreases r@.len() - pos,
    {
        pos = pos + 1;
    }
    proof {
        if pos < r@.len() {
            assert(!lex_le(r@[pos as int]@, itemv@));
            lemma_lex_total(r@[pos as int]@, itemv@);
        }
        lemma_insert_keeps_order(before, itemv, pos as int);
        lemma_insert_contents(before, itemv, pos as int);
    }
    r.insert(pos, item);
    proof {
        assert(r@ == before.insert(pos as int, itemv));
    }
}

/// Keeps the entries that carry the chunk extension and sorts them
/// lexicographically, which is chunk-number order because the names are
/// zero-padded.
pub fn get_chunk_list(entries: &Vec<Vec<u8>>) -> (r: Vec<Vec<u8>>)
    ensures
        names_sorted(r@),
        forall|i: int| 0 <= i < r@.len() ==> has_chunk_suffix((#[trigger] r@[i])@),
        name_views(r@).to_multiset() == suffixed_names(entries@).to_multiset(),
        r@.len() == suffixed_names(entries@).len(),
{
    let mut r: Vec<Vec<u8>> = Vec::new();
    let mut j: usize = 0;
    proof {
        assert(name_views(r@) =~= suffixed_names(entries@.subrange(0, 0)));
    }
    while j < entries.len()
        invariant
            j <= entries@.len(),
            names_sorted(r@),
            forall|i: int| 0 <= i < r@.len() ==> has_chunk_suffix((#[trigger] r@[i])@),
            name_views(r@).to_multiset() == suffixed_names(
                entries@.subrange(0, j as int),
            ).to_multiset(),
            r@.len() == suffixed_names(entries@.subrange(0, j as int)).len(),
        decreases entries@.len() - j,
    {
        proof {
            assert(entries@.subrange(0, j as int + 1).drop_last() =~= entries@.subrange(
                0,
                j as int,
            ));
            assert(entries@.subrange(0, j as int + 1).last() == entries@[j as int]);
        }
        if has_chunk_suffix_check(&entries[j]) {
            let item = clone_name(&entries[j]);
            let ghost old_r = r@;
            insert_sorted(&mut r, item);
            proof {
                assert forall|i: int| 0 <= i < r@.len() implies has_chunk_suffix(
                    (#[trigger] r@[i])@,
                ) by {
                    if r@[i]@ != entries@[j as int]@ {
                        let m = choose|m: int|
                            0 <= m < old_r.len() && r@[i]@ == (#[trigger] old_r[m])@;
                        assert(has_chunk_suffix(old_r[m]@));
                    }
                }
                let sn = suffixed_names(entries@.subrange(0, j as int));
                assert(suffixed_names(entries@.subrange(0, j as int + 1)) == sn.push(
                    entries@[j as int]@,
                ));
                sn.to_multiset_ensures();
                assert(name_views(r@).to_multiset() == sn.push(
                    entries@[j as int]@,
                ).to_multiset());
            }
        }
        j = j + 1;
    }
    proof {
        assert(entries@.subrange(0, entries@.len() as int) =~= entries@);
    }
    r
}

/// Lexicographic order is reflexive.
proof fn lemma_lex_le_refl(a: Seq<u8>)
    ensures
        lex_le(a, a),
    decreases a.len(),
{
    if a.len() > 0 {
        lemma_lex_le_refl(a.skip(1));
    }
}

/// One step of a digit comparison: within one decimal place, order of the
/// quotients refines to order of the digits.
proof fn lemma_digit_step(a: int, b: int, low: int)
    requires
        0 <= a <= b,
        0 < low,
        a / (10 * low) == b / (10 * low),
    ensures
        (a / low) % 10 <= (b / low) % 10,
        (a / low) % 10 == (b / low) % 10 ==> a / low == b / low,
{
    vstd::arithmetic::div_mod::lemma_div_is_ordered(a, b, low);
    vstd::arithmetic::div_mod::lemma_div_denominator(a, low, 10);
    vstd::arithmetic::div_mod::lemma_div_denominator(b, low, 10);
    assert(low * 10 == 10 * low) by (nonlinear_arith);
    vstd::arithmetic::div_mod::lemma_fundamental_div_mod(a / low, 10);
    vstd::arithmetic::div_mod::lemma_fundamental_div_mod(b / low, 10);
}

/// Because chunk names are zero-padded to a fixed width, their
/// lexicographic order is exactly their numeric order: discovery sorting
/// names therefore reads the chunks back in the order they were written.
pub proof fn lemma_chunk_names_ordered(a: int, b: int)
    requires
        0 <= a <= b < 100000,
    ensures
        lex_le(spec_chunk_name(a), spec_chunk_name(b)),
{
    let sa = spec_chunk_name(a);
    let sb = spec_chunk_name(b);
    vstd::arithmetic::div_mod::lemma_div_is_ordered(a, b, 10000);
    vstd::arithmetic::div_mod::lemma_div_is_ordered(a, 99999, 10000);
    vstd::arithmetic::div_mod::lemma_div_is_ordered(b, 99999, 10000);
    vstd::arithmetic::div_mod::lemma_small_mod((a / 10000) as nat, 10);
    vstd::arithmetic::div_mod::lemma_small_mod((b / 10000) as nat, 10);
    assert(sa.skip(1).skip(1) =~= sa.skip(2));
    assert(sb.skip(1).skip(1) =~= sb.skip(2));
    assert(sa.skip(2).skip(1) =~= sa.skip(3));
    assert(sb.skip(2).skip(1) =~= sb.skip(3));
    assert(sa.skip(3).skip(1) =~= sa.skip(4));
    assert(sb.skip(3).skip(1) =~= sb.skip(4));
    if a / 10000 < b / 10000 {
        assert(sa[0] < sb[0]);
    } else {
        assert(a / 10000 == b / 10000);
        assert(sa[0] == sb[0]);
        lemma_digit_step(a, b, 1000);
        if (a / 1000) % 10 < (b / 1000) % 10 {
            assert(sa.skip(1)[0] < sb.skip(1)[0]);
            assert(lex_le(sa.skip(1), sb.skip(1)));
        } else {
            assert(a / 1000 == b / 1000);
            assert(sa.skip(1)[0] == sb.skip(1)[0]);
            lemma_digit_step(a, b, 100);
            if (a / 100) % 10 < (b / 100) % 10 {
                assert(sa.skip(2)[0] < sb.skip(2)[0]);
                assert(lex_le(sa.skip(2), sb.skip(2)));
            } else {
                assert(a / 100 == b / 100);
                assert(sa.skip(2)[0] == sb.skip(2)[0]);
                lemma_digit_step(a, b, 10);
                if (a / 10) % 10 < (b / 10) % 10 {
                    assert(sa.skip(3)[0] < sb.skip(3)[0]);
                    assert(lex_le(sa.skip(3), sb.skip(3)));
                } else {
                    assert(a / 10 == b / 10);
                    assert(sa.skip(3)[0] == sb.skip(3)[0]);
                    lemma_digit_step(a, b, 1);
                    assert(a / 1 == a && b / 1 == b);
                    if a % 10 < b % 10 {
                        assert(sa.skip(4)[0] < sb.skip(4)[0]);
                        assert(lex_le(sa.skip(4), sb.skip(4)));
                    } else {
                        assert(a == b);
                        assert(sa.skip(4) =~= sb.skip(4));
                        lemma_lex_le_refl(sa.skip(4));
                    }
                    assert(lex_le(sa.skip(4), sb.skip(4)));
                    assert(lex_le(sa.skip(3), sb.skip(3)));
                }
                assert(lex_le(sa.skip(3), sb.skip(3)));
                assert(lex_le(sa.skip(2), sb.skip(2)));
            }
            assert(lex_le(sa.skip(2), sb.skip(2)));
            assert(lex_le(sa.skip(1), sb.skip(1)));
        }
        assert(lex_le(sa.skip(1), sb.skip(1)));
        assert(lex_le(sa, sb));
    }
}

/// Lexicographic order is total.
proof fn lemma_lex_total(a: Seq<u8>, b: Seq<u8>)
    ensures
        lex_le(a, b) || lex_le(b, a),
    decreases a.len(),
{
    if a.len() > 0 && b.len() > 0 && a[0] == b[0] {
        lemma_lex_total(a.skip(1), b.skip(1));
    }
}

/// The byte contents of a list of chunks.
pub open spec fn byte_views(chunks: Seq<Vec<u8>>) -> Seq<Seq<u8>> {
    Seq::new(chunks.len(), |i: int| chunks[i]@)
}

/// The stored transitions a session's chunks were made from, in the shape
/// the given domain requires: the right chunk count, each chunk the
/// compressed encoding of its slice, and every record of the domain's
/// shape and encodable.
pub open spec fn session_matches<S: StateType>(
    chunks: Seq<Seq<u8>>,
    tvs: Seq<TransitionView>,
) -> bool {
    &&& chunks.len() == num_chunks(tvs.len() as int)
    &&& forall|i: int|
        0 <= i < chunks.len() ==> (#[trigger] chunks[i]) == zstd_of(
            enc_transitions(segment_of(tvs, i)),
        )
    &&& forall|k: int|
        0 <= k < tvs.len() ==> (#[trigger] tvs[k]).valid(
            S::num_actions_spec(),
            S::num_features_spec(),
        )
    &&& forall|k: int| 0 <= k < tvs.len() ==> encodable(#[trigger] tvs[k])
    &&& S::num_features_spec() <= 0xFFFF_FFFF
    &&& S::num_actions_spec() <= 0xFFFF_FFFF
}

/// The geometry of a session document agrees with its stored transitions
/// and a rebuildable buffer.
pub open spec fn config_matches(config: TrainingConfig, len: int) -> bool {
    &&& len == config.replay_buffer.size as int
    &&& is_pow_2(config.replay_buffer.capacity as int)
    &&& config.replay_buffer.capacity <= CAPACITY_LIMIT
    &&& config.replay_buffer.size <= config.replay_buffer.capacity
    &&& config.replay_buffer.write_position < config.replay_buffer.capacity
    &&& config.replay_buffer.size < config.replay_buffer.capacity
        ==> config.replay_buffer.write_position == config.replay_buffer.size as int
}

/// Chunk `i` of a stored sequence starts strictly inside it.
proof fn lemma_chunk_index(len: int, i: int)
    requires
        0 <= len,
        0 <= i < num_chunks(len),
    ensures
        i * (CHUNK_SIZE as int) < len,
        i * (CHUNK_SIZE as int) >= 0,
{
    let c = CHUNK_SIZE as int;
    assert(i * c >= 0) by (nonlinear_arith)
        requires
            i >= 0,
            c > 0,
    ;
    assert(i + 1 <= (len + c - 1) / c);
    vstd::arithmetic::div_mod::lemma_fundamental_div_mod(len + c - 1, c);
    vstd::arithmetic::div_mod::lemma_mod_bound(len + c - 1, c);
    assert((i + 1) * c <= ((len + c - 1) / c) * c) by (nonlinear_arith)
        requires
            i + 1 <= (len + c - 1) / c,
            c > 0,
    ;
    assert(((len + c - 1) / c) * c <= len + c - 1) by (nonlinear_arith)
        requires
            (len + c - 1) == c * ((len + c - 1) / c) + (len + c - 1) % c,
            (len + c - 1) % c >= 0,
    ;
    assert((i + 1) * c == i * c + c) by (nonlinear_arith);
}

/// Restores sessions planned by the serializer.
pub struct TrainingDeserializer {}

impl TrainingDeserializer {
    /// Rebuilds the replay buffer from its decompressed, decoded and
    /// validated chunks. On any input that a serialized session produces,
    /// this succeeds and returns exactly the stored transitions, each at
    /// the default priority.
    #[verifier::rlimit(100)]
    #[verifier::spinoff_prover]
    pub fn deserialize_replay_buffer<S: StateType, D: DataAugmenterType<State = S>>(
        chunks: &Vec<Vec<u8>>,
        config: &TrainingConfig,
        data_augmenter: D,
    ) -> (r: Result<ReplayBuffer<S, D>, SessionDeserializationError>)
        ensures
            r is Ok ==> (r->Ok_0).wf(),
            r is Ok ==> (r->Ok_0).capacity_spec() == config.replay_buffer.capacity as int,
            r is Ok ==> (r->Ok_0).write_position_spec()
                == config.replay_buffer.write_position as int,
            r is Ok ==> (r->Ok_0).max_priority_spec() == FIXED_ONE,
            r is Ok ==> forall|k: int|
                0 <= k < (r->Ok_0).size_spec() ==> (#[trigger] (r->Ok_0).priorities_spec()[k])
                    == FIXED_ONE,
            forall|tvs: Seq<TransitionView>|
                #[trigger] session_matches::<S>(byte_views(chunks@), tvs) && config_matches(
                    *config,
                    tvs.len() as int,
                ) ==> r is Ok && (r->Ok_0)@ == tvs,
    {
        let nf = S::num_features();
        let na = S::num_actions();
        let mut transitions: Vec<StateTransition> = Vec::new();
        let mut i: usize = 0;
        while i < chunks.len()
            invariant
                i <= chunks@.len(),
                nf as int == S::num_features_spec(),
                na as int == S::num_actions_spec(),
                forall|k: int|
                    0 <= k < transitions@.len() ==> (#[trigger] transitions@[k]@).valid(
                        S::num_actions_spec(),
                        S::num_features_spec(),
                    ),
                forall|tvs: Seq<TransitionView>|
                    #[trigger] session_matches::<S>(byte_views(chunks@), tvs) ==> views_of(
                        transitions@,
                    ) == tvs.subrange(
                        0,
                        if (i as int) * (CHUNK_SIZE as int) <= tvs.len() {
                            (i as int) * (CHUNK_SIZE as int)
                        } else {
                            tvs.len() as int
                        },
                    ),
            decreases chunks@.len() - i,
        {
            let ghost cviews = byte_views(chunks@);
            let raw = match decompress_bytes(&chunks[i]) {
                Ok(d) => d,
                Err(_) => {
                    proof {
                        assert forall|tvs: Seq<TransitionView>|
                            !(#[trigger] session_matches::<S>(cviews, tvs)) || i
                                >= num_chunks(tvs.len() as int) by {
                            if session_matches::<S>(cviews, tvs) && i < num_chunks(
                                tvs.len() as int,
                            ) {
                                assert(cviews[i as int] == zstd_of(
                                    enc_transitions(segment_of(tvs, i as int)),
                                ));
                            }
                        }
                    }
                    return Err(SessionDeserializationError::CorruptChunk);
                },
            };
            let decoded = match decode_transitions(&raw) {
                Some(ts) => ts,
                None => {
                    proof {
                        assert forall|tvs: Seq<TransitionView>|
                            !(#[trigger] session_matches::<S>(cviews, tvs)) by {
                            if session_matches::<S>(cviews, tvs) {
                                assert(cviews[i as int] == zstd_of(
                                    enc_transitions(segment_of(tvs, i as int)),
                                ));
                                assert(raw@ == enc_transitions(segment_of(tvs, i as int)));
                                lemma_chunk_index(tvs.len() as int, i as int);
                                lemma_segment_encodable::<S>(tvs, i as int);
                                lemma_codec_round_trip(segment_of(tvs, i as int));
                                assert(dec_transitions(raw@) is Some);
                            }
                        }
                    }
                    return Err(SessionDeserializationError::CorruptChunk);
                },
            };
            let mut shape_ok = true;
            let mut k: usize = 0;
            while k < decoded.len()
                invariant
                    k <= decoded@.len(),
                    nf as int == S::num_features_spec(),
                    na as int == S::num_actions_spec(),
                    shape_ok ==> forall|m: int|
                        0 <= m < k ==> (#[trigger] decoded@[m]@).valid(
                            S::num_actions_spec(),
                            S::num_features_spec(),
                        ),
                    !shape_ok ==> exists|m: int|
                        0 <= m < decoded@.len() && !(#[trigger] decoded@[m]@).valid(
                            S::num_actions_spec(),
                            S::num_features_spec(),
                        ),
                decreases decoded@.len() - k,
            {
                let t = &decoded[k];
                if t.state.len() != nf || t.next_state.len() != nf
                    || t.invalid_actions_mask.len() != na || t.action >= na {
                    shape_ok = false;
                    proof {
                        assert(!decoded@[k as int]@.valid(
                            S::num_actions_spec(),
                            S::num_features_spec(),
                        ));
                    }
                }
                k = k + 1;
            }
            if !shape_ok {
                proof {
                    let bad = choose|m: int|
                        0 <= m < decoded@.len() && !(#[trigger] decoded@[m]@).valid(
                            S::num_actions_spec(),
                            S::num_features_spec(),
                        );
                    assert forall|tvs: Seq<TransitionView>|
                        !(#[trigger] session_matches::<S>(cviews, tvs)) by {
                        if session_matches::<S>(cviews, tvs) {
                            assert(cviews[i as int] == zstd_of(
                                enc_transitions(segment_of(tvs, i as int)),
                            ));
                            assert(raw@ == enc_transitions(segment_of(tvs, i as int)));
                            lemma_chunk_index(tvs.len() as int, i as int);
                            lemma_segment_encodable::<S>(tvs, i as int);
                            lemma_codec_round_trip(segment_of(tvs, i as int));
                            assert(views_of(decoded@) == segment_of(tvs, i as int));
                            assert(decoded@[bad]@ == segment_of(tvs, i as int)[bad]);
                            assert(segment_of(tvs, i as int)[bad] == tvs[(i as int) * (
                            CHUNK_SIZE as int) + bad]);
                        }
                    }
                }
                return Err(SessionDeserializationError::CorruptChunk);
            }
            let ghost pre = transitions@;
            let ghost dseq = decoded@;
            let mut decoded_vec = decoded;
            transitions.append(&mut decoded_vec);
            i = i + 1;
            proof {
                assert(transitions@ == pre + dseq);
                assert(views_of(pre + dseq) =~= views_of(pre) + views_of(dseq));
                assert forall|tvs: Seq<TransitionView>|
                    #[trigger] session_matches::<S>(cviews, tvs) implies views_of(transitions@)
                    == tvs.subrange(
                    0,
                    if (i as int) * (CHUNK_SIZE as int) <= tvs.len() {
                        (i as int) * (CHUNK_SIZE as int)
                    } else {
                        tvs.len() as int
                    },
                ) by {
                    assert(cviews[i - 1] == zstd_of(
                        enc_transitions(segment_of(tvs, i - 1)),
                    ));
                    assert(raw@ == enc_transitions(segment_of(tvs, i - 1)));
                    lemma_chunk_index(tvs.len() as int, i - 1);
                    lemma_segment_encodable::<S>(tvs, i - 1);
                    lemma_codec_round_trip(segment_of(tvs, i - 1));
                    assert(views_of(dseq) == segment_of(tvs, i - 1));
                    lemma_chunk_index(tvs.len() as int, i - 1);
                    assert((i as int) * (CHUNK_SIZE as int) == (i - 1) * (CHUNK_SIZE as int)
                        + CHUNK_SIZE) by (nonlinear_arith);
                    assert(views_of(transitions@) =~= tvs.subrange(
                        0,
                        if (i as int) * (CHUNK_SIZE as int) <= tvs.len() {
                            (i as int) * (CHUNK_SIZE as int)
                        } else {
                            tvs.len() as int
                        },
                    ));
                }
            }
        }
        let capacity = config.replay_buffer.capacity;
        let write_position = config.replay_buffer.write_position;
        let size_ok = transitions.len() == config.replay_buffer.size
            && is_power_of_two_check(capacity) && capacity <= CAPACITY_LIMIT && transitions.len()
            <= capacity && write_position < capacity && (transitions.len() == capacity
            || write_position == transitions.len());
        if !size_ok {
            proof {
                assert forall|tvs: Seq<TransitionView>|
                    !(#[trigger] session_matches::<S>(byte_views(chunks@), tvs)) || !config_matches(
                        *config,
                        tvs.len() as int,
                    ) by {
                    if session_matches::<S>(byte_views(chunks@), tvs) && config_matches(
                        *config,
                        tvs.len() as int,
                    ) {
                        lemma_full_coverage(tvs.len() as int);
                        assert(views_of(transitions@) == tvs.subrange(0, tvs.len() as int));
                        assert(tvs.subrange(0, tvs.len() as int) =~= tvs);
                    }
                }
            }
            return Err(SessionDeserializationError::InvalidConfig);
        }
        let buffer = ReplayBuffer::from_parts(data_augmenter, transitions, capacity, write_position);
        proof {
            assert forall|tvs: Seq<TransitionView>|
                #[trigger] session_matches::<S>(byte_views(chunks@), tvs) && config_matches(
                    *config,
                    tvs.len() as int,
                ) implies buffer@ == tvs by {
                lemma_full_coverage(tvs.len() as int);
                assert(tvs.subrange(0, tvs.len() as int) =~= tvs);
            }
        }
        Ok(buffer)
    }

    /// Restores a whole trainer around the rebuilt buffer. The model
    /// weights are restored by the model capability itself.
    pub fn deserialize<
        M: Model,
        S: StateType,
        C: CriticType<State = S>,
        R: StatsRecorderType<State = S>,
        D: DataAugmenterType<State = S>,
    >(
        config: TrainingConfig,
        chunks: &Vec<Vec<u8>>,
        critic: C,
        data_augmenter: D,
        stats_recorder: R,
    ) -> (r: Result<Trainer<M, S, C, R, D>, SessionDeserializationError>)
        ensures
            !config.hyperparameters.wf() ==> r == Err::<
                Trainer<M, S, C, R, D>,
                SessionDeserializationError,
            >(SessionDeserializationError::InvalidConfig),
            config.hyperparameters.wf() && config.replay_buffer.capacity
                != config.hyperparameters.replay_capacity ==> r == Err::<
                Trainer<M, S, C, R, D>,
                SessionDeserializationError,
            >(SessionDeserializationError::InvalidConfig),
            r is Ok ==> (r->Ok_0).wf(),
            r is Ok ==> (r->Ok_0).epoch_number_spec() == config.training_info.epoch_number as int,
            r is Ok ==> (r->Ok_0).frame_number_spec() == config.training_info.frame_number as int,
            r is Ok ==> (r->Ok_0).config_spec() == config.hyperparameters,
            r is Ok ==> (r->Ok_0).replay_buffer_ref().capacity_spec()
                == config.replay_buffer.capacity as int,
            r is Ok ==> (r->Ok_0).replay_buffer_ref().write_position_spec()
                == config.replay_buffer.write_position as int,
            r is Ok ==> forall|k: int|
                0 <= k < (r->Ok_0).replay_buffer_ref().size_spec() ==> (#[trigger] (
                r->Ok_0).replay_buffer_ref().priorities_spec()[k]) == FIXED_ONE,
            forall|tvs: Seq<TransitionView>|
                #[trigger] session_matches::<S>(byte_views(chunks@), tvs) && config_matches(
                    config,
                    tvs.len() as int,
                ) && config.hyperparameters.wf() && config.replay_buffer.capacity
                    == config.hyperparameters.replay_capacity && S::num_actions_spec() >= 1 && (
                config.hyperparameters.batch_size as int) * S::num_features_spec() <= usize::MAX
                    && (config.hyperparameters.batch_size as int) * S::num_actions_spec()
                    <= usize::MAX ==> r is Ok && (r->Ok_0).replay_buffer_ref()@ == tvs,
    {
        if !check_hyperparameters(&config.hyperparameters) {
            return Err(SessionDeserializationError::InvalidConfig);
        }
        if config.replay_buffer.capacity != config.hyperparameters.replay_capacity {
            return Err(SessionDeserializationError::InvalidConfig);
        }
        let na = S::num_actions();
        let nf = S::num_features();
        let batch = config.hyperparameters.batch_size;
        proof {
            assert((batch as int) * (nf as int) < 0x1_0000_0000_0000_0000_0000_0000_0000_0000)
                by (nonlinear_arith)
                requires
                    batch <= 0xFFFF_FFFF_FFFF_FFFF,
                    nf <= 0xFFFF_FFFF_FFFF_FFFF,
            ;
            assert((batch as int) * (na as int) < 0x1_0000_0000_0000_0000_0000_0000_0000_0000)
                by (nonlinear_arith)
                requires
                    batch <= 0xFFFF_FFFF_FFFF_FFFF,
                    na <= 0xFFFF_FFFF_FFFF_FFFF,
            ;
        }
        if na == 0 || (batch as u128) * (nf as u128) > usize::MAX as u128 || (batch as u128) * (
        na as u128) > usize::MAX as u128 {
            return Err(SessionDeserializationError::InvalidConfig);
        }
        let buffer = match Self::deserialize_replay_buffer::<S, D>(chunks, &config, data_augmenter) {
            Ok(b) => b,
            Err(e) => {
                return Err(e);
            },
        };
        Ok(
            Trainer::from_session(
                config.hyperparameters,
                critic,
                buffer,
                stats_recorder,
                config.training_info.epoch_number,
                config.training_info.frame_number,
            ),
        )
    }
}

/// Every record of a valid, encodable store's slice is encodable, and the
/// slice is short enough to encode.
proof fn lemma_segment_encodable<S: StateType>(tvs: Seq<TransitionView>, i: int)
    requires
        0 <= i,
        i * (CHUNK_SIZE as int) <= tvs.len(),
        forall|k: int| 0 <= k < tvs.len() ==> encodable(#[trigger] tvs[k]),
    ensures
        segment_of(tvs, i).len() <= 0xFFFF_FFFF,
        forall|k: int|
            0 <= k < segment_of(tvs, i).len() ==> encodable(#[trigger] segment_of(tvs, i)[k]),
{
    let c = CHUNK_SIZE as int;
    assert(i * c >= 0) by (nonlinear_arith)
        requires
            i >= 0,
            c > 0,
    ;
    assert((i + 1) * c == i * c + c) by (nonlinear_arith);
    let seg = segment_of(tvs, i);
    assert(seg.len() <= c);
    assert forall|k: int| 0 <= k < seg.len() implies encodable(#[trigger] seg[k]) by {
        assert(seg[k] == tvs[i * c + k]);
    }
}

/// Once every chunk is read, the whole store is covered.
proof fn lemma_full_coverage(len: int)
    requires
        0 <= len,
    ensures
        num_chunks(len) * (CHUNK_SIZE as int) >= len,
{
    let c = CHUNK_SIZE as int;
    vstd::arithmetic::div_mod::lemma_fundamental_div_mod(len + c - 1, c);
    vstd::arithmetic::div_mod::lemma_mod_bound(len + c - 1, c);
    let q = (len + c - 1) / c;
    assert(num_chunks(len) == q);
    assert(q * c == c * q) by (nonlinear_arith);
    assert(c * q == (len + c - 1) - (len + c - 1) % c);
    assert((len + c - 1) % c <= c - 1);
}

} // verus!
