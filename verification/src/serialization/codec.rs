//! The byte format for replay contents.
//!
//! A chunk is a little-endian count followed by that many records; a
//! record is the two length-prefixed feature vectors, the action index,
//! the reward as a sign byte and magnitude, the length-prefixed mask of
//! one byte per flag, and the terminal flag. Decoding is strict: flag
//! bytes must be zero or one, magnitudes must fit a signed word, and a
//! chunk must be consumed exactly.

use vstd::prelude::*;

use crate::fixed::abs_i64;
use crate::replay_buffer::{views_of, StateTransition, TransitionView};

verus! {

/// The four little-endian bytes of a word.
pub open spec fn le_bytes_u32(v: u32) -> Seq<u8> {
    let r1 = v / 256;
    let r2 = r1 / 256;
    let r3 = r2 / 256;
    seq![(v % 256) as u8, (r1 % 256) as u8, (r2 % 256) as u8, (r3 % 256) as u8]
}

/// The eight little-endian bytes of a long word.
pub open spec fn le_bytes_u64(v: u64) -> Seq<u8> {
    let r1 = v / 256;
    let r2 = r1 / 256;
    let r3 = r2 / 256;
    let r4 = r3 / 256;
    let r5 = r4 / 256;
    let r6 = r5 / 256;
    let r7 = r6 / 256;
    seq![
        (v % 256) as u8,
        (r1 % 256) as u8,
        (r2 % 256) as u8,
        (r3 % 256) as u8,
        (r4 % 256) as u8,
        (r5 % 256) as u8,
        (r6 % 256) as u8,
        (r7 % 256) as u8,
    ]
}

/// One byte per flag.
pub open spec fn bool_byte(b: bool) -> u8 {
    if b {
        1u8
    } else {
        0u8
    }
}

/// The magnitude of a reward.
pub open spec fn reward_mag(r: int) -> u64 {
    (if r < 0 {
        -r
    } else {
        r
    }) as u64
}

/// Concatenated little-endian words.
pub open spec fn enc_u32s(s: Seq<u32>) -> Seq<u8>
    decreases s.len(),
{
    if s.len() == 0 {
        Seq::empty()
    } else {
        le_bytes_u32(s[0]) + enc_u32s(s.skip(1))
    }
}

/// Concatenated flag bytes.
pub open spec fn enc_bools(s: Seq<bool>) -> Seq<u8>
    decreases s.len(),
{
    if s.len() == 0 {
        Seq::empty()
    } else {
        seq![bool_byte(s[0])] + enc_bools(s.skip(1))
    }
}

/// The bytes of one record.
pub open spec fn enc_transition(t: TransitionView) -> Seq<u8> {
    le_bytes_u32(t.state.len() as u32) + enc_u32s(t.state) + le_bytes_u32(t.action as u32) + seq![
        bool_byte(t.reward < 0),
    ] + le_bytes_u64(reward_mag(t.reward)) + le_bytes_u32(t.next_state.len() as u32) + enc_u32s(
        t.next_state,
    ) + le_bytes_u32(t.invalid_actions_mask.len() as u32) + enc_bools(t.invalid_actions_mask)
        + seq![bool_byte(t.is_terminal)]
}

/// Concatenated records.
pub open spec fn enc_list(l: Seq<TransitionView>) -> Seq<u8>
    decreases l.len(),
{
    if l.len() == 0 {
        Seq::empty()
    } else {
        enc_transition(l[0]) + enc_list(l.skip(1))
    }
}

/// The bytes of one chunk: the record count, then the records.
pub open spec fn enc_transitions(l: Seq<TransitionView>) -> Seq<u8> {
    le_bytes_u32(l.len() as u32) + enc_list(l)
}

/// A record the format can hold: bounded lengths and indices, and a
/// reward within a signed word.
pub open spec fn encodable(t: TransitionView) -> bool {
    &&& t.state.len() <= 0xFFFF_FFFF
    &&& t.next_state.len() <= 0xFFFF_FFFF
    &&& t.invalid_actions_mask.len() <= 0xFFFF_FFFF
    &&& 0 <= t.action <= 0xFFFF_FFFF
    &&& -0x8000_0000_0000_0000 <= t.reward <= 0x7FFF_FFFF_FFFF_FFFF
}

/// Reads one little-endian word.
pub open spec fn dec_u32(b: Seq<u8>) -> Option<(u32, Seq<u8>)> {
    if b.len() < 4 {
        None
    } else {
        Some(
            (
                ((b[0] + 256 * (b[1] + 256 * (b[2] + 256 * (b[3] as int)))) as u32),
                b.skip(4),
            ),
        )
    }
}

/// Reads one little-endian long word.
pub open spec fn dec_u64(b: Seq<u8>) -> Option<(u64, Seq<u8>)> {
    if b.len() < 8 {
        None
    } else {
        Some(
            (
                ((b[0] + 256 * (b[1] + 256 * (b[2] + 256 * (b[3] + 256 * (b[4] + 256 * (b[5] + 256
                    * (b[6] + 256 * (b[7] as int)))))))) as u64),
                b.skip(8),
            ),
        )
    }
}

/// Reads one strict flag byte.
pub open spec fn dec_bool(b: Seq<u8>) -> Option<(bool, Seq<u8>)> {
    if b.len() < 1 {
        None
    } else if b[0] == 0 {
        Some((false, b.skip(1)))
    } else if b[0] == 1 {
        Some((true, b.skip(1)))
    } else {
        None
    }
}

/// Reads `n` little-endian words.
pub open spec fn dec_u32s(b: Seq<u8>, n: nat) -> Option<(Seq<u32>, Seq<u8>)>
    decreases n,
{
    if n == 0 {
        Some((Seq::empty(), b))
    } else {
        match dec_u32(b) {
            None => None,
            Some((v, r)) => match dec_u32s(r, (n - 1) as nat) {
                None => None,
                Some((vs, r2)) => Some((seq![v] + vs, r2)),
            },
        }
    }
}

/// Reads `n` strict flag bytes.
pub open spec fn dec_bools(b: Seq<u8>, n: nat) -> Option<(Seq<bool>, Seq<u8>)>
    decreases n,
{
    if n == 0 {
        Some((Seq::empty(), b))
    } else {
        match dec_bool(b) {
            None => None,
            Some((v, r)) => match dec_bools(r, (n - 1) as nat) {
                None => None,
                Some((vs, r2)) => Some((seq![v] + vs, r2)),
            },
        }
    }
}

/// Reads one record.
pub open spec fn dec_transition(b: Seq<u8>) -> Option<(TransitionView, Seq<u8>)> {
    match dec_u32(b) {
        None => None,
        Some((state_len, b1)) => match dec_u32s(b1, state_len as nat) {
            None => None,
            Some((state, b2)) => match dec_u32(b2) {
                None => None,
                Some((action, b3)) => match dec_bool(b3) {
                    None => None,
                    Some((negative, b4)) => match dec_u64(b4) {
                        None => None,
                        Some((mag, b5)) => {
                            if (negative && (mag < 1 || mag > 0x8000_0000_0000_0000)) || (!negative
                                && mag > 0x7FFF_FFFF_FFFF_FFFF) {
                                None
                            } else {
                                match dec_u32(b5) {
                                    None => None,
                                    Some((next_len, b6)) => match dec_u32s(b6, next_len as nat) {
                                        None => None,
                                        Some((next, b7)) => match dec_u32(b7) {
                                            None => None,
                                            Some((mask_len, b8)) => match dec_bools(
                                                b8,
                                                mask_len as nat,
                                            ) {
                                                None => None,
                                                Some((mask, b9)) => match dec_bool(b9) {
                                                    None => None,
                                                    Some((terminal, b10)) => Some(
                                                        (
                                                            TransitionView {
                                                                state,
                                                                action: action as int,
                                                                reward: if negative {
                                                                    -(mag as int)
                                                                } else {
                                                                    mag as int
                                                                },
                                                                next_state: next,
                                                                invalid_actions_mask: mask,
                                                                is_terminal: terminal,
                                                            },
                                                            b10,
                                                        ),
                                                    ),
                                                },
                                            },
                                        },
                                    },
                                }
                            }
                        },
                    },
                },
            },
        },
    }
}

/// Reads `n` records.
pub open spec fn dec_list(b: Seq<u8>, n: nat) -> Option<(Seq<TransitionView>, Seq<u8>)>
    decreases n,
{
    if n == 0 {
        Some((Seq::empty(), b))
    } else {
        match dec_transition(b) {
            None => None,
            Some((t, r)) => match dec_list(r, (n - 1) as nat) {
                None => None,
                Some((ts, r2)) => Some((seq![t] + ts, r2)),
            },
        }
    }
}

/// Reads one whole chunk; the bytes must be consumed exactly.
pub open spec fn dec_transitions(b: Seq<u8>) -> Option<Seq<TransitionView>> {
    match dec_u32(b) {
        None => None,
        Some((n, b1)) => match dec_list(b1, n as nat) {
            None => None,
            Some((ts, rest)) => if rest.len() == 0 {
                Some(ts)
            } else {
                None
            },
        },
    }
}

/// A word's little-endian bytes read back as the word.
pub proof fn lemma_u32_bytes(v: u32, rest: Seq<u8>)
    ensures
        le_bytes_u32(v).len() == 4,
        dec_u32(le_bytes_u32(v) + rest) == Some((v, rest)),
{
    let b = le_bytes_u32(v) + rest;
    let r1 = v / 256;
    let r2 = r1 / 256;
    let r3 = r2 / 256;
    vstd::arithmetic::div_mod::lemma_fundamental_div_mod(v as int, 256);
    vstd::arithmetic::div_mod::lemma_fundamental_div_mod(r1 as int, 256);
    vstd::arithmetic::div_mod::lemma_fundamental_div_mod(r2 as int, 256);
    assert(r3 < 256) by {
        assert(r3 == ((v / 256) / 256) / 256);
    }
    assert(b[0] == (v % 256) as u8 && b[1] == (r1 % 256) as u8 && b[2] == (r2 % 256) as u8 && b[3]
        == (r3 % 256) as u8);
    assert(b.skip(4) =~= rest);
}

/// A long word's little-endian bytes read back as the long word.
pub proof fn lemma_u64_bytes(v: u64, rest: Seq<u8>)
    ensures
        le_bytes_u64(v).len() == 8,
        dec_u64(le_bytes_u64(v) + rest) == Some((v, rest)),
{
    let b = le_bytes_u64(v) + rest;
    let r1 = v / 256;
    let r2 = r1 / 256;
    let r3 = r2 / 256;
    let r4 = r3 / 256;
    let r5 = r4 / 256;
    let r6 = r5 / 256;
    let r7 = r6 / 256;
    vstd::arithmetic::div_mod::lemma_fundamental_div_mod(v as int, 256);
    vstd::arithmetic::div_mod::lemma_fundamental_div_mod(r1 as int, 256);
    vstd::arithmetic::div_mod::lemma_fundamental_div_mod(r2 as int, 256);
    vstd::arithmetic::div_mod::lemma_fundamental_div_mod(r3 as int, 256);
    vstd::arithmetic::div_mod::lemma_fundamental_div_mod(r4 as int, 256);
    vstd::arithmetic::div_mod::lemma_fundamental_div_mod(r5 as int, 256);
    vstd::arithmetic::div_mod::lemma_fundamental_div_mod(r6 as int, 256);
    assert(r7 < 256);
    assert(b.skip(8) =~= rest);
}

/// A strict flag byte reads back as its flag.
pub proof fn lemma_bool_byte(x: bool, rest: Seq<u8>)
    ensures
        dec_bool(seq![bool_byte(x)] + rest) == Some((x, rest)),
{
    let b = seq![bool_byte(x)] + rest;
    assert(b[0] == bool_byte(x));
    assert(b.skip(1) =~= rest);
}

/// Encoded words read back as the words.
pub proof fn lemma_u32s_bytes(s: Seq<u32>, rest: Seq<u8>)
    ensures
        dec_u32s(enc_u32s(s) + rest, s.len()) == Some((s, rest)),
    decreases s.len(),
{
    if s.len() == 0 {
        assert(enc_u32s(s) + rest =~= rest);
        assert(dec_u32s(rest, 0) == Some((Seq::<u32>::empty(), rest)));
        assert(s =~= Seq::<u32>::empty());
    } else {
        lemma_u32s_bytes(s.skip(1), rest);
        assert(enc_u32s(s) + rest =~= le_bytes_u32(s[0]) + (enc_u32s(s.skip(1)) + rest));
        lemma_u32_bytes(s[0], enc_u32s(s.skip(1)) + rest);
        assert(seq![s[0]] + s.skip(1) =~= s);
    }
}

/// Encoded flags read back as the flags.
pub proof fn lemma_bools_bytes(s: Seq<bool>, rest: Seq<u8>)
    ensures
        dec_bools(enc_bools(s) + rest, s.len()) == Some((s, rest)),
    decreases s.len(),
{
    if s.len() == 0 {
        assert(enc_bools(s) + rest =~= rest);
        assert(s =~= Seq::<bool>::empty());
    } else {
        lemma_bools_bytes(s.skip(1), rest);
        assert(enc_bools(s) + rest =~= seq![bool_byte(s[0])] + (enc_bools(s.skip(1)) + rest));
        lemma_bool_byte(s[0], enc_bools(s.skip(1)) + rest);
        assert(seq![s[0]] + s.skip(1) =~= s);
    }
}

/// Concatenation shifts one level of grouping.
proof fn lemma_shift(a: Seq<u8>, b: Seq<u8>, c: Seq<u8>)
    ensures
        (a + b) + c == a + (b + c),
{
    assert((a + b) + c =~= a + (b + c));
}

/// An encoded record reads back as the record.
#[verifier::rlimit(100)]
#[verifier::spinoff_prover]
pub proof fn lemma_transition_bytes(t: TransitionView, rest: Seq<u8>)
    requires
        encodable(t),
    ensures
        dec_transition(enc_transition(t) + rest) == Some((t, rest)),
{
    let h = le_bytes_u32(t.state.len() as u32);
    let p_state = enc_u32s(t.state);
    let p_action = le_bytes_u32(t.action as u32);
    let p_sign = seq![bool_byte(t.reward < 0)];
    let p_mag = le_bytes_u64(reward_mag(t.reward));
    let p_nlen = le_bytes_u32(t.next_state.len() as u32);
    let p_next = enc_u32s(t.next_state);
    let p_mlen = le_bytes_u32(t.invalid_actions_mask.len() as u32);
    let p_mask = enc_bools(t.invalid_actions_mask);
    let p_term = seq![bool_byte(t.is_terminal)];
    let e1 = h + p_state;
    let e2 = e1 + p_action;
    let e3 = e2 + p_sign;
    let e4 = e3 + p_mag;
    let e5 = e4 + p_nlen;
    let e6 = e5 + p_next;
    let e7 = e6 + p_mlen;
    let e8 = e7 + p_mask;
    assert(enc_transition(t) == e8 + p_term);
    let s9 = p_term + rest;
    let s8 = p_mask + s9;
    let s7 = p_mlen + s8;
    let s6 = p_next + s7;
    let s5 = p_nlen + s6;
    let s4 = p_mag + s5;
    let s3 = p_sign + s4;
    let s2 = p_action + s3;
    let s1 = p_state + s2;
    lemma_shift(e8, p_term, rest);
    lemma_shift(e7, p_mask, s9);
    lemma_shift(e6, p_mlen, s8);
    lemma_shift(e5, p_next, s7);
    lemma_shift(e4, p_nlen, s6);
    lemma_shift(e3, p_mag, s5);
    lemma_shift(e2, p_sign, s4);
    lemma_shift(e1, p_action, s3);
    lemma_shift(h, p_state, s2);
    assert(enc_transition(t) + rest == h + s1);
    lemma_u32_bytes(t.state.len() as u32, s1);
    assert((t.state.len() as u32) as nat == t.state.len());
    lemma_u32s_bytes(t.state, s2);
    lemma_u32_bytes(t.action as u32, s3);
    lemma_bool_byte(t.reward < 0, s4);
    lemma_u64_bytes(reward_mag(t.reward), s5);
    lemma_u32_bytes(t.next_state.len() as u32, s6);
    assert((t.next_state.len() as u32) as nat == t.next_state.len());
    lemma_u32s_bytes(t.next_state, s7);
    lemma_u32_bytes(t.invalid_actions_mask.len() as u32, s8);
    assert((t.invalid_actions_mask.len() as u32) as nat == t.invalid_actions_mask.len());
    lemma_bools_bytes(t.invalid_actions_mask, s9);
    lemma_bool_byte(t.is_terminal, rest);
    let mag = reward_mag(t.reward);
    if t.reward < 0 {
        assert(1 <= mag <= 0x8000_0000_0000_0000);
        assert(-(mag as int) == t.reward);
    } else {
        assert(mag <= 0x7FFF_FFFF_FFFF_FFFF);
        assert(mag as int == t.reward);
    }
    let decoded = dec_transition(enc_transition(t) + rest);
    assert(decoded is Some);
    let (t2, r2) = decoded->Some_0;
    assert(t2 == t);
    assert(r2 == rest);
}

/// An encoded record list reads back as the list.
pub proof fn lemma_list_bytes(l: Seq<TransitionView>, rest: Seq<u8>)
    requires
        forall|k: int| 0 <= k < l.len() ==> encodable(#[trigger] l[k]),
    ensures
        dec_list(enc_list(l) + rest, l.len()) == Some((l, rest)),
    decreases l.len(),
{
    if l.len() == 0 {
        assert(enc_list(l) + rest =~= rest);
        assert(l =~= Seq::<TransitionView>::empty());
    } else {
        assert(forall|k: int| 0 <= k < l.skip(1).len() ==> encodable(#[trigger] l.skip(1)[k]));
        lemma_list_bytes(l.skip(1), rest);
        assert(enc_list(l) + rest =~= enc_transition(l[0]) + (enc_list(l.skip(1)) + rest));
        lemma_transition_bytes(l[0], enc_list(l.skip(1)) + rest);
        assert(seq![l[0]] + l.skip(1) =~= l);
    }
}

/// A whole encoded chunk reads back as the records it was made from.
pub proof fn lemma_codec_round_trip(l: Seq<TransitionView>)
    requires
        l.len() <= 0xFFFF_FFFF,
        forall|k: int| 0 <= k < l.len() ==> encodable(#[trigger] l[k]),
    ensures
        dec_transitions(enc_transitions(l)) == Some(l),
{
    assert(enc_transitions(l) =~= le_bytes_u32(l.len() as u32) + (enc_list(l)
        + Seq::<u8>::empty()));
    lemma_u32_bytes(l.len() as u32, enc_list(l) + Seq::<u8>::empty());
    assert(enc_list(l) + Seq::<u8>::empty() =~= enc_list(l) + Seq::<u8>::empty());
    lemma_list_bytes(l, Seq::<u8>::empty());
    assert(enc_list(l) + Seq::<u8>::empty() =~= enc_list(l));
    assert(dec_list(enc_list(l), l.len()) == Some((l, Seq::<u8>::empty())));
}

/// Appends one little-endian word.
fn push_u32(out: &mut Vec<u8>, v: u32)
    ensures
        final(out)@ == old(out)@ + le_bytes_u32(v),
{
    let b0: u8 = (v % 256) as u8;
    let r1: u32 = v / 256;
    let b1: u8 = (r1 % 256) as u8;
    let r2: u32 = r1 / 256;
    let b2: u8 = (r2 % 256) as u8;
    let r3: u32 = r2 / 256;
    let b3: u8 = (r3 % 256) as u8;
    out.push(b0);
    out.push(b1);
    out.push(b2);
    out.push(b3);
    proof {
        assert(out@ =~= old(out)@ + le_bytes_u32(v));
    }
}

/// Appends one little-endian long word.
fn push_u64(out: &mut Vec<u8>, v: u64)
    ensures
        final(out)@ == old(out)@ + le_bytes_u64(v),
{
    let b0: u8 = (v % 256) as u8;
    let r1: u64 = v / 256;
    let b1: u8 = (r1 % 256) as u8;
    let r2: u64 = r1 / 256;
    let b2: u8 = (r2 % 256) as u8;
    let r3: u64 = r2 / 256;
    let b3: u8 = (r3 % 256) as u8;
    let r4: u64 = r3 / 256;
    let b4: u8 = (r4 % 256) as u8;
    let r5: u64 = r4 / 256;
    let b5: u8 = (r5 % 256) as u8;
    let r6: u64 = r5 / 256;
    let b6: u8 = (r6 % 256) as u8;
    let r7: u64 = r6 / 256;
    let b7: u8 = (r7 % 256) as u8;
    out.push(b0);
    out.push(b1);
    out.push(b2);
    out.push(b3);
    out.push(b4);
    out.push(b5);
    out.push(b6);
    out.push(b7);
    proof {
        assert(out@ =~= old(out)@ + le_bytes_u64(v));
    }
}

/// Appending one more word extends the encoding at the end.
proof fn lemma_enc_u32s_push(s: Seq<u32>, x: u32)
    ensures
        enc_u32s(s.push(x)) == enc_u32s(s) + le_bytes_u32(x),
    decreases s.len(),
{
    if s.len() == 0 {
        assert(s.push(x)[0] == x);
        assert(s.push(x).skip(1) =~= Seq::<u32>::empty());
        assert(enc_u32s(s.push(x)) == le_bytes_u32(x) + enc_u32s(s.push(x).skip(1)));
        assert(enc_u32s(Seq::<u32>::empty()) == Seq::<u8>::empty());
        assert(enc_u32s(s.push(x)) =~= enc_u32s(s) + le_bytes_u32(x));
    } else {
        assert(s.push(x)[0] == s[0]);
        assert(s.push(x).skip(1) =~= s.skip(1).push(x));
        assert(enc_u32s(s.push(x)) == le_bytes_u32(s[0]) + enc_u32s(s.push(x).skip(1)));
        lemma_enc_u32s_push(s.skip(1), x);
        assert(enc_u32s(s.push(x)) == le_bytes_u32(s[0]) + (enc_u32s(s.skip(1)) + le_bytes_u32(
            x,
        )));
        assert(enc_u32s(s) == le_bytes_u32(s[0]) + enc_u32s(s.skip(1)));
        assert((le_bytes_u32(s[0]) + enc_u32s(s.skip(1))) + le_bytes_u32(x) =~= le_bytes_u32(s[0])
            + (enc_u32s(s.skip(1)) + le_bytes_u32(x)));
    }
}

/// Appending one more flag extends the encoding at the end.
proof fn lemma_enc_bools_push(s: Seq<bool>, x: bool)
    ensures
        enc_bools(s.push(x)) == enc_bools(s) + seq![bool_byte(x)],
    decreases s.len(),
{
    if s.len() == 0 {
        assert(s.push(x)[0] == x);
        assert(s.push(x).skip(1) =~= Seq::<bool>::empty());
        assert(enc_bools(s.push(x)) == seq![bool_byte(x)] + enc_bools(s.push(x).skip(1)));
        assert(enc_bools(Seq::<bool>::empty()) == Seq::<u8>::empty());
        assert(enc_bools(s.push(x)) =~= enc_bools(s) + seq![bool_byte(x)]);
    } else {
        assert(s.push(x)[0] == s[0]);
        assert(s.push(x).skip(1) =~= s.skip(1).push(x));
        assert(enc_bools(s.push(x)) == seq![bool_byte(s[0])] + enc_bools(s.push(x).skip(1)));
        lemma_enc_bools_push(s.skip(1), x);
        assert(enc_bools(s.push(x)) == seq![bool_byte(s[0])] + (enc_bools(s.skip(1)) + seq![
            bool_byte(x),
        ]));
        assert(enc_bools(s) == seq![bool_byte(s[0])] + enc_bools(s.skip(1)));
        assert((seq![bool_byte(s[0])] + enc_bools(s.skip(1))) + seq![bool_byte(x)] =~= seq![
            bool_byte(s[0]),
        ] + (enc_bools(s.skip(1)) + seq![bool_byte(x)]));
    }
}

/// Appends the encodings of all words of a vector.
fn push_u32s(out: &mut Vec<u8>, s: &Vec<u32>)
    ensures
        final(out)@ == old(out)@ + enc_u32s(s@),
{
    let mut i: usize = 0;
    proof {
        assert(out@ =~= old(out)@ + enc_u32s(s@.subrange(0, 0)));
    }
    while i < s.len()
        invariant
            i <= s@.len(),
            out@ == old(out)@ + enc_u32s(s@.subrange(0, i as int)),
        decreases s@.len() - i,
    {
        proof {
            assert(s@.subrange(0, i as int + 1) =~= s@.subrange(0, i as int).push(s@[i as int]));
            lemma_enc_u32s_push(s@.subrange(0, i as int), s@[i as int]);
        }
        push_u32(out, s[i]);
        proof {
            assert(out@ =~= old(out)@ + enc_u32s(s@.subrange(0, i as int + 1)));
        }
        i = i + 1;
    }
    proof {
        assert(s@.subrange(0, s@.len() as int) =~= s@);
    }
}

/// Appends the encodings of all flags of a vector.
fn push_bools(out: &mut Vec<u8>, s: &Vec<bool>)
    ensures
        final(out)@ == old(out)@ + enc_bools(s@),
{
    let mut i: usize = 0;
    proof {
        assert(out@ =~= old(out)@ + enc_bools(s@.subrange(0, 0)));
    }
    while i < s.len()
        invariant
            i <= s@.len(),
            out@ == old(out)@ + enc_bools(s@.subrange(0, i as int)),
        decreases s@.len() - i,
    {
        proof {
            assert(s@.subrange(0, i as int + 1) =~= s@.subrange(0, i as int).push(s@[i as int]));
            lemma_enc_bools_push(s@.subrange(0, i as int), s@[i as int]);
        }
        let byte: u8 = if s[i] {
            1
        } else {
            0
        };
        out.push(byte);
        proof {
            assert(out@ =~= old(out)@ + enc_bools(s@.subrange(0, i as int + 1)));
        }
        i = i + 1;
    }
    proof {
        assert(s@.subrange(0, s@.len() as int) =~= s@);
    }
}

/// Appends the bytes of one record.
fn push_transition(out: &mut Vec<u8>, t: &StateTransition)
    requires
        encodable(t@),
    ensures
        final(out)@ == old(out)@ + enc_transition(t@),
{
    push_u32(out, t.state.len() as u32);
    push_u32s(out, &t.state);
    push_u32(out, t.action as u32);
    let negative = t.reward < 0;
    let sign_byte: u8 = if negative {
        1
    } else {
        0
    };
    out.push(sign_byte);
    push_u64(out, abs_i64(t.reward));
    push_u32(out, t.next_state.len() as u32);
    push_u32s(out, &t.next_state);
    push_u32(out, t.invalid_actions_mask.len() as u32);
    push_bools(out, &t.invalid_actions_mask);
    let term_byte: u8 = if t.is_terminal {
        1
    } else {
        0
    };
    out.push(term_byte);
    proof {
        assert(out@ =~= old(out)@ + enc_transition(t@));
    }
}

/// Encodes one chunk of records.
pub fn encode_transitions(ts: &Vec<StateTransition>) -> (out: Vec<u8>)
    requires
        ts@.len() <= 0xFFFF_FFFF,
        forall|k: int| 0 <= k < ts@.len() ==> encodable((#[trigger] ts@[k])@),
    ensures
        out@ == enc_transitions(views_of(ts@)),
{
    let mut out: Vec<u8> = Vec::new();
    push_u32(&mut out, ts.len() as u32);
    let ghost header = out@;
    let mut k: usize = 0;
    proof {
        assert(out@ =~= header + enc_list(views_of(ts@).subrange(0, 0)));
    }
    while k < ts.len()
        invariant
            k <= ts@.len(),
            forall|m: int| 0 <= m < ts@.len() ==> encodable((#[trigger] ts@[m])@),
            out@ == header + enc_list(views_of(ts@).subrange(0, k as int)),
        decreases ts@.len() - k,
    {
        proof {
            assert(views_of(ts@).subrange(0, k as int + 1) =~= views_of(ts@).subrange(
                0,
                k as int,
            ).push(ts@[k as int]@));
            lemma_enc_list_push(views_of(ts@).subrange(0, k as int), ts@[k as int]@);
        }
        push_transition(&mut out, &ts[k]);
        proof {
            assert(out@ =~= header + enc_list(views_of(ts@).subrange(0, k as int + 1)));
        }
        k = k + 1;
    }
    proof {
        assert(views_of(ts@).subrange(0, ts@.len() as int) =~= views_of(ts@));
        assert(out@ =~= enc_transitions(views_of(ts@)));
    }
    out
}

/// Appending one more record extends the encoding at the end.
proof fn lemma_enc_list_push(l: Seq<TransitionView>, t: TransitionView)
    ensures
        enc_list(l.push(t)) == enc_list(l) + enc_transition(t),
    decreases l.len(),
{
    if l.len() == 0 {
        assert(l.push(t)[0] == t);
        assert(l.push(t).skip(1) =~= Seq::<TransitionView>::empty());
        assert(enc_list(l.push(t)) == enc_transition(t) + enc_list(l.push(t).skip(1)));
        assert(enc_list(Seq::<TransitionView>::empty()) == Seq::<u8>::empty());
        assert(enc_list(l.push(t)) =~= enc_list(l) + enc_transition(t));
    } else {
        assert(l.push(t)[0] == l[0]);
        assert(l.push(t).skip(1) =~= l.skip(1).push(t));
        assert(enc_list(l.push(t)) == enc_transition(l[0]) + enc_list(l.push(t).skip(1)));
        lemma_enc_list_push(l.skip(1), t);
        assert(enc_list(l.push(t)) == enc_transition(l[0]) + (enc_list(l.skip(1))
            + enc_transition(t)));
        assert(enc_list(l) == enc_transition(l[0]) + enc_list(l.skip(1)));
        assert((enc_transition(l[0]) + enc_list(l.skip(1))) + enc_transition(t) =~= enc_transition(
            l[0],
        ) + (enc_list(l.skip(1)) + enc_transition(t)));
    }
}

/// Reads one little-endian word at `pos`.
fn read_u32(bytes: &Vec<u8>, pos: usize) -> (r: Option<(u32, usize)>)
    requires
        pos <= bytes@.len(),
    ensures
        match r {
            None => dec_u32(bytes@.skip(pos as int)) is None,
            Some((v, p2)) => pos <= p2 <= bytes@.len() && dec_u32(bytes@.skip(pos as int)) == Some(
                (v, bytes@.skip(p2 as int)),
            ),
        },
{
    let ghost sfx = bytes@.skip(pos as int);
    if bytes.len() - pos < 4 {
        return None;
    }
    let b0 = bytes[pos];
    let b1 = bytes[pos + 1];
    let b2 = bytes[pos + 2];
    let b3 = bytes[pos + 3];
    let wide: u64 = b0 as u64 + 256 * (b1 as u64 + 256 * (b2 as u64 + 256 * (b3 as u64)));
    proof {
        assert(sfx[0] == b0 && sfx[1] == b1 && sfx[2] == b2 && sfx[3] == b3);
        assert(sfx.skip(4) =~= bytes@.skip(pos as int + 4));
        assert(wide <= 0xFFFF_FFFF);
    }
    Some(((wide as u32), pos + 4))
}

/// Reads one little-endian long word at `pos`.
fn read_u64(bytes: &Vec<u8>, pos: usize) -> (r: Option<(u64, usize)>)
    requires
        pos <= bytes@.len(),
    ensures
        match r {
            None => dec_u64(bytes@.skip(pos as int)) is None,
            Some((v, p2)) => pos <= p2 <= bytes@.len() && dec_u64(bytes@.skip(pos as int)) == Some(
                (v, bytes@.skip(p2 as int)),
            ),
        },
{
    let ghost sfx = bytes@.skip(pos as int);
    if bytes.len() - pos < 8 {
        return None;
    }
    let b0 = bytes[pos];
    let b1 = bytes[pos + 1];
    let b2 = bytes[pos + 2];
    let b3 = bytes[pos + 3];
    let b4 = bytes[pos + 4];
    let b5 = bytes[pos + 5];
    let b6 = bytes[pos + 6];
    let b7 = bytes[pos + 7];
    let wide: u128 = b0 as u128 + 256 * (b1 as u128 + 256 * (b2 as u128 + 256 * (b3 as u128 + 256
        * (b4 as u128 + 256 * (b5 as u128 + 256 * (b6 as u128 + 256 * (b7 as u128)))))));
    proof {
        assert(sfx[0] == b0 && sfx[1] == b1 && sfx[2] == b2 && sfx[3] == b3);
        assert(sfx[4] == b4 && sfx[5] == b5 && sfx[6] == b6 && sfx[7] == b7);
        assert(sfx.skip(8) =~= bytes@.skip(pos as int + 8));
        assert(wide <= 0xFFFF_FFFF_FFFF_FFFF);
    }
    Some(((wide as u64), pos + 8))
}

/// Reads one strict flag byte at `pos`.
fn read_bool(bytes: &Vec<u8>, pos: usize) -> (r: Option<(bool, usize)>)
    requires
        pos <= bytes@.len(),
    ensures
        match r {
            None => dec_bool(bytes@.skip(pos as int)) is None,
            Some((v, p2)) => pos <= p2 <= bytes@.len() && dec_bool(bytes@.skip(pos as int)) == Some(
                (v, bytes@.skip(p2 as int)),
            ),
        },
{
    let ghost sfx = bytes@.skip(pos as int);
    if bytes.len() - pos < 1 {
        return None;
    }
    let b0 = bytes[pos];
    proof {
        assert(sfx[0] == b0);
        assert(sfx.skip(1) =~= bytes@.skip(pos as int + 1));
    }
    if b0 == 0 {
        Some((false, pos + 1))
    } else if b0 == 1 {
        Some((true, pos + 1))
    } else {
        None
    }
}

/// Reads `n` little-endian words at `pos`.
fn read_u32s(bytes: &Vec<u8>, pos: usize, n: u32) -> (r: Option<(Vec<u32>, usize)>)
    requires
        pos <= bytes@.len(),
    ensures
        match r {
            None => dec_u32s(bytes@.skip(pos as int), n as nat) is None,
            Some((vs, p2)) => pos <= p2 <= bytes@.len() && dec_u32s(
                bytes@.skip(pos as int),
                n as nat,
            ) == Some((vs@, bytes@.skip(p2 as int))),
        },
{
    let ghost pos0 = pos as int;
    let mut acc: Vec<u32> = Vec::new();
    let mut cur: usize = pos;
    let mut k: u32 = 0;
    proof {
        assert(acc@ + dec_u32s(bytes@.skip(pos0), n as nat)->Some_0.0 =~= dec_u32s(
            bytes@.skip(pos0),
            n as nat,
        )->Some_0.0);
    }
    while k < n
        invariant
            pos0 == pos as int,
            pos <= cur <= bytes@.len(),
            k <= n,
            acc@.len() == k,
            dec_u32s(bytes@.skip(pos0), n as nat) == (match dec_u32s(
                bytes@.skip(cur as int),
                (n - k) as nat,
            ) {
                None => None::<(Seq<u32>, Seq<u8>)>,
                Some((tail, rest)) => Some((acc@ + tail, rest)),
            }),
        decreases n - k,
    {
        let step = read_u32(bytes, cur);
        match step {
            None => {
                proof {
                    assert(dec_u32s(bytes@.skip(cur as int), (n - k) as nat) is None);
                }
                return None;
            },
            Some((v, p2)) => {
                proof {
                    let tail_dec = dec_u32s(bytes@.skip(p2 as int), (n - k - 1) as nat);
                    if tail_dec is Some {
                        assert(acc@.push(v) + tail_dec->Some_0.0 =~= acc@ + (seq![v]
                            + tail_dec->Some_0.0));
                    }
                }
                acc.push(v);
                cur = p2;
                k = k + 1;
            },
        }
    }
    proof {
        assert(dec_u32s(bytes@.skip(cur as int), 0) == Some(
            (Seq::<u32>::empty(), bytes@.skip(cur as int)),
        ));
        assert(acc@ + Seq::<u32>::empty() =~= acc@);
    }
    Some((acc, cur))
}

/// Reads `n` strict flag bytes at `pos`.
fn read_bools(bytes: &Vec<u8>, pos: usize, n: u32) -> (r: Option<(Vec<bool>, usize)>)
    requires
        pos <= bytes@.len(),
    ensures
        match r {
            None => dec_bools(bytes@.skip(pos as int), n as nat) is None,
            Some((vs, p2)) => pos <= p2 <= bytes@.len() && dec_bools(
                bytes@.skip(pos as int),
                n as nat,
            ) == Some((vs@, bytes@.skip(p2 as int))),
        },
{
    let ghost pos0 = pos as int;
    let mut acc: Vec<bool> = Vec::new();
    let mut cur: usize = pos;
    let mut k: u32 = 0;
    while k < n
        invariant
            pos0 == pos as int,
            pos <= cur <= bytes@.len(),
            k <= n,
            acc@.len() == k,
            dec_bools(bytes@.skip(pos0), n as nat) == (match dec_bools(
                bytes@.skip(cur as int),
                (n - k) as nat,
            ) {
                None => None::<(Seq<bool>, Seq<u8>)>,
                Some((tail, rest)) => Some((acc@ + tail, rest)),
            }),
        decreases n - k,
    {
        let step = read_bool(bytes, cur);
        match step {
            None => {
                proof {
                    assert(dec_bools(bytes@.skip(cur as int), (n - k) as nat) is None);
                }
                return None;
            },
            Some((v, p2)) => {
                proof {
                    let tail_dec = dec_bools(bytes@.skip(p2 as int), (n - k - 1) as nat);
                    if tail_dec is Some {
                        assert(acc@.push(v) + tail_dec->Some_0.0 =~= acc@ + (seq![v]
                            + tail_dec->Some_0.0));
                    }
                }
                acc.push(v);
                cur = p2;
                k = k + 1;
            },
        }
    }
    proof {
        assert(acc@ + Seq::<bool>::empty() =~= acc@);
    }
    Some((acc, cur))
}

/// Reads one record at `pos`.
#[verifier::rlimit(100)]
#[verifier::spinoff_prover]
fn read_transition(bytes: &Vec<u8>, pos: usize) -> (r: Option<(StateTransition, usize)>)
    requires
        pos <= bytes@.len(),
    ensures
        match r {
            None => dec_transition(bytes@.skip(pos as int)) is None,
            Some((t, p2)) => pos <= p2 <= bytes@.len() && dec_transition(bytes@.skip(pos as int))
                == Some((t@, bytes@.skip(p2 as int))),
        },
{
    let r0 = read_u32(bytes, pos);
    let (state_len, p1) = match r0 {
        None => {
            return None;
        },
        Some(x) => x,
    };
    let r1 = read_u32s(bytes, p1, state_len);
    let (state, p2) = match r1 {
        None => {
            return None;
        },
        Some(x) => x,
    };
    let r2 = read_u32(bytes, p2);
    let (action, p3) = match r2 {
        None => {
            return None;
        },
        Some(x) => x,
    };
    let r3 = read_bool(bytes, p3);
    let (negative, p4) = match r3 {
        None => {
            return None;
        },
        Some(x) => x,
    };
    let r4 = read_u64(bytes, p4);
    let (mag, p5) = match r4 {
        None => {
            return None;
        },
        Some(x) => x,
    };
    if (negative && (mag < 1 || mag > 0x8000_0000_0000_0000)) || (!negative && mag
        > 0x7FFF_FFFF_FFFF_FFFF) {
        return None;
    }
    let r5 = read_u32(bytes, p5);
    let (next_len, p6) = match r5 {
        None => {
            return None;
        },
        Some(x) => x,
    };
    let r6 = read_u32s(bytes, p6, next_len);
    let (next, p7) = match r6 {
        None => {
            return None;
        },
        Some(x) => x,
    };
    let r7 = read_u32(bytes, p7);
    let (mask_len, p8) = match r7 {
        None => {
            return None;
        },
        Some(x) => x,
    };
    let r8 = read_bools(bytes, p8, mask_len);
    let (mask, p9) = match r8 {
        None => {
            return None;
        },
        Some(x) => x,
    };
    let r9 = read_bool(bytes, p9);
    let (terminal, p10) = match r9 {
        None => {
            return None;
        },
        Some(x) => x,
    };
    let reward: i64 = if negative {
        if mag == 0x8000_0000_0000_0000 {
            i64::MIN
        } else {
            -(mag as i64)
        }
    } else {
        mag as i64
    };
    let t = StateTransition {
        state,
        action: action as usize,
        reward,
        next_state: next,
        invalid_actions_mask: mask,
        is_terminal: terminal,
    };
    proof {
        let decoded = dec_transition(bytes@.skip(pos as int));
        assert(decoded is Some);
        assert(decoded->Some_0.0 == t@);
        assert(decoded->Some_0.1 == bytes@.skip(p10 as int));
    }
    Some((t, p10))
}

/// Decodes one whole chunk; fails on malformed or trailing bytes.
pub fn decode_transitions(bytes: &Vec<u8>) -> (r: Option<Vec<StateTransition>>)
    ensures
        r is Some <==> dec_transitions(bytes@) is Some,
        r is Some ==> views_of(r->Some_0@) == dec_transitions(bytes@)->Some_0,
{
    proof {
        assert(bytes@.skip(0) =~= bytes@);
    }
    let r0 = read_u32(bytes, 0);
    let (n, p1) = match r0 {
        None => {
            return None;
        },
        Some(x) => x,
    };
    let ghost items0 = p1 as int;
    let mut acc: Vec<StateTransition> = Vec::new();
    let mut cur: usize = p1;
    let mut k: u32 = 0;
    while k < n
        invariant
            cur <= bytes@.len(),
            k <= n,
            acc@.len() == k,
            dec_transitions(bytes@) == (match dec_list(
                bytes@.skip(cur as int),
                (n - k) as nat,
            ) {
                None => None::<Seq<TransitionView>>,
                Some((tail, rest)) => if rest.len() == 0 {
                    Some(views_of(acc@) + tail)
                } else {
                    None::<Seq<TransitionView>>
                },
            }),
        decreases n - k,
    {
        let step = read_transition(bytes, cur);
        match step {
            None => {
                proof {
                    assert(dec_list(bytes@.skip(cur as int), (n - k) as nat) is None);
                }
                return None;
            },
            Some((t, p2)) => {
                proof {
                    let tail_dec = dec_list(bytes@.skip(p2 as int), (n - k - 1) as nat);
                    if tail_dec is Some {
                        assert(views_of(acc@.push(t)) =~= views_of(acc@).push(t@));
                        assert(views_of(acc@).push(t@) + tail_dec->Some_0.0 =~= views_of(acc@)
                            + (seq![t@] + tail_dec->Some_0.0));
                    }
                }
                acc.push(t);
                cur = p2;
                k = k + 1;
            },
        }
    }
    if cur != bytes.len() {
        proof {
            assert(bytes@.skip(cur as int).len() != 0);
        }
        return None;
    }
    proof {
        assert(bytes@.skip(cur as int).len() == 0);
        assert(views_of(acc@) + Seq::<TransitionView>::empty() =~= views_of(acc@));
    }
    Some(acc)
}

} // verus!
