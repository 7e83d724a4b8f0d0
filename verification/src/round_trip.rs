//! The codec's central theorem: decoding undoes encoding.
//!
//! The proof couples the encoder and the decoder step by step.  After any
//! number of input bytes, the decoder — run over the encoder's bit stream —
//! has consumed exactly the codes emitted so far, holds the dictionary one
//! entry behind the encoder's (the entry whose last byte the encoder has
//! seen but not yet transmitted), remembers the last emitted string, and
//! has written every decoded byte of the input except the pending match.

use vstd::prelude::*;

use crate::bit_sequence::{
    bits_of, bits_of_bytes, bytes_of, lemma_bits_of_bytes_of, lemma_log2_ceil_bounds,
    lemma_log2_ceil_le, lemma_log2_ceil_unique, lemma_num_of_bits_of, log2_ceil, num_of,
    pad_to_byte,
};
use crate::trie::{
    find_child, lemma_add_along_node_string, lemma_child_props, lemma_wf_add_byte, spec_add_byte,
    spec_add_from, spec_feed, trie_init, trie_wf, walker_wf, NodeModel, WalkerModel, MAX_SIZE,
};
use crate::{dec_width, enc_state, spec_decode, spec_decode_loop, spec_encode, spec_encode_bits};
use vstd::arithmetic::power2::{lemma2_to64, lemma_pow2_strictly_increases, pow2};

verus! {

/// The decoder's position, dictionary, previous string and output after
/// the encoder has consumed `i` input bytes: one code is consumed the
/// moment it is emitted.
pub open spec fn dec_state(x: Seq<u8>, i: int) -> (int, Seq<NodeModel>, Seq<u8>, Seq<u8>)
    decreases i,
{
    if i <= 0 {
        (0, trie_init(), Seq::<u8>::empty(), Seq::<u8>::empty())
    } else {
        let prev = dec_state(x, i - 1);
        let w = enc_state(x, i - 1).0;
        let fr = spec_feed(w, x[i - 1]);
        match fr.1 {
            None => prev,
            Some(code) => {
                let width = log2_ceil((fr.0.trie.len() - 1) as nat);
                let t = prev.1;
                let cur = prev.2;
                if (code as int) < t.len() {
                    let s = t[code as int].string;
                    let t2 = if cur.len() > 0 {
                        spec_add_from(t, 0, cur.push(s[0]))
                    } else {
                        t
                    };
                    (prev.0 + width, t2, s, prev.3 + s)
                } else {
                    let s = cur.push(cur[0]);
                    (prev.0 + width, spec_add_from(t, 0, s), s, prev.3 + s)
                }
            },
        }
    }
}

/// How encoder and decoder relate after `i` input bytes — the
/// encoder-decoder lockstep: the decoder's position sits at the end of
/// the emitted bits; its output plus the encoder's pending match is the
/// consumed input; before the first emission both dictionaries are fresh;
/// afterwards the decoder's dictionary is exactly one entry behind the
/// encoder's — the encoder's is the decoder's plus the child of the last
/// emitted node labelled by the pending match's first byte — until both
/// are full.
pub open spec fn lockstep_inv(x: Seq<u8>, i: int) -> bool {
    let w = enc_state(x, i).0;
    let bits = enc_state(x, i).1;
    let d = dec_state(x, i);
    let pend = w.trie[w.index as int].string;
    &&& walker_wf(w)
    &&& trie_wf(d.1)
    &&& d.0 == bits.len()
    &&& d.3 + pend == x.take(i)
    &&& (w.index == 0 ==> i == 0)
    &&& (d.2.len() == 0 ==> {
        &&& d.1 == trie_init()
        &&& w.trie == trie_init()
        &&& d.3 == Seq::<u8>::empty()
        &&& bits == Seq::<bool>::empty()
    })
    &&& (d.2.len() > 0 ==> {
        &&& w.index >= 1
        &&& pend.len() >= 1
        &&& exists|c: int|
            0 < c < d.1.len() && (#[trigger] d.1[c].string) == d.2 && w.trie == spec_add_byte(
                d.1,
                c as usize,
                pend[0],
            )
        &&& (w.trie.len() == d.1.len() + 1 || d.1.len() == MAX_SIZE as int)
    })
}

/// The agreed code widths at the dictionary sizes the codec passes
/// through.
proof fn lemma_log2_ceil_values()
    ensures
        log2_ceil(257) == 9,
        log2_ceil(258) == 9,
        log2_ceil(65535) == 16,
        log2_ceil(65536) == 16,
{
    lemma2_to64();
    lemma_log2_ceil_unique(257, 9);
    lemma_log2_ceil_unique(258, 9);
    lemma_log2_ceil_unique(65535, 16);
    lemma_log2_ceil_unique(65536, 16);
}

/// The decoder's width stays between 9 and 16 bits over any well-formed
/// dictionary.
proof fn lemma_dec_width_range(t: Seq<NodeModel>)
    requires
        trie_wf(t),
    ensures
        9 <= dec_width(t) <= 16,
{
    lemma2_to64();
    if t.len() < MAX_SIZE {
        let a = (t.len() + 1) as nat;
        lemma_log2_ceil_bounds(a);
        if log2_ceil(a) < 9 {
            if log2_ceil(a) < 8 {
                lemma_pow2_strictly_increases(log2_ceil(a), 8);
            }
            assert(false);
        }
        lemma_log2_ceil_le(a, 16);
    } else {
        lemma_log2_ceil_values();
    }
}

/// `add_byte` never touches the string or parent of an existing node.
proof fn lemma_add_byte_frame(t: Seq<NodeModel>, index: usize, b: u8)
    requires
        0 <= (index as int) < t.len(),
    ensures
        t.len() <= spec_add_byte(t, index, b).len(),
        forall|k: int|
            0 <= k < t.len() ==> (#[trigger] spec_add_byte(t, index, b)[k]).string == t[k].string
                && spec_add_byte(t, index, b)[k].parent == t[k].parent,
{
}

/// The bits emitted after `i` bytes are a prefix of the whole stream.
proof fn lemma_enc_bits_prefix(x: Seq<u8>, i: int)
    requires
        0 <= i <= x.len(),
    ensures
        enc_state(x, i).1.len() <= spec_encode_bits(x).len(),
        spec_encode_bits(x).take(enc_state(x, i).1.len() as int) == enc_state(x, i).1,
    decreases x.len() - i,
{
    if i == x.len() {
        assert(spec_encode_bits(x).take(enc_state(x, i).1.len() as int) =~= enc_state(x, i).1);
    } else {
        lemma_enc_bits_prefix(x, i + 1);
        let b1 = enc_state(x, i).1;
        let b2 = enc_state(x, i + 1).1;
        let fr = spec_feed(enc_state(x, i).0, x[i]);
        if fr.1 is None {
            assert(b2 == b1);
        } else {
            assert(b2.take(b1.len() as int) =~= b1);
        }
        assert(spec_encode_bits(x).take(b1.len() as int) =~= b2.take(b1.len() as int));
    }
}

/// One emission, catch-up: the decoder's dictionary after this code is
/// the encoder's pre-emission one, the string it emits is the match the
/// encoder just flushed, and the widths the two sides use agree.
#[verifier::rlimit(100)]
proof fn lemma_emit_catchup(x: Seq<u8>, i: int)
    requires
        1 <= i <= x.len(),
        lockstep_inv(x, i - 1),
        spec_feed(enc_state(x, i - 1).0, x[i - 1]).1 is Some,
    ensures
        dec_state(x, i).1 == enc_state(x, i - 1).0.trie,
        dec_state(x, i).2 == enc_state(x, i - 1).0.trie[enc_state(x, i - 1).0.index as int].string,
        dec_state(x, i).3 == dec_state(x, i - 1).3 + dec_state(x, i).2,
        dec_state(x, i).0 == dec_state(x, i - 1).0 + log2_ceil(
            (enc_state(x, i).0.trie.len() - 1) as nat,
        ),
        1 <= enc_state(x, i - 1).0.index as int <= dec_state(x, i - 1).1.len(),
        enc_state(x, i - 1).0.index as int == dec_state(x, i - 1).1.len() ==> dec_state(
            x,
            i - 1,
        ).2.len() > 0,
        dec_width(dec_state(x, i - 1).1) == log2_ceil((enc_state(x, i).0.trie.len() - 1) as nat),
{
    crate::trie::lemma_trie_init_wf();
    let w = enc_state(x, i - 1).0;
    let bits = enc_state(x, i - 1).1;
    let d = dec_state(x, i - 1);
    let byte = x[i - 1];
    let fr = spec_feed(w, byte);
    let pend = w.trie[w.index as int].string;
    assert(enc_state(x, i) == crate::enc_step(w, bits, byte));
    {
            // emission: the decoder consumes the code and catches up
            let code = w.index;
            let tenc2 = fr.0.trie;
            assert(tenc2 == spec_add_byte(w.trie, w.index, byte));
            let ww = log2_ceil((tenc2.len() - 1) as nat);
            let t = d.1;
            let cur = d.2;
            let out = d.3;
            // the root holds every byte, so the walker was below the root
            assert(find_child(w.trie[0].children, byte) == Some((byte + 1) as usize));
            assert(code >= 1);
            assert(0 <= w.trie[code as int].parent < code as int);
            assert(pend.len() >= 1);
            lemma_wf_add_byte(w.trie, code, byte);
            lemma_add_byte_frame(w.trie, code, byte);
            lemma_log2_ceil_values();
            lemma2_to64();
            // the decoder's step: the string it emits and the trie it builds
            let dn = dec_state(x, i);
            if cur.len() == 0 {
                // first code: both dictionaries are fresh
                assert(t == trie_init() && w.trie == trie_init());
                assert((code as int) < t.len());
                assert(dn.2 == t[code as int].string);
                assert(dn.2 == pend);
                assert(dn.1 == t);
                assert(tenc2.len() == 258 && t.len() == 257);
                assert(dec_width(t) == log2_ceil(258));
                assert(ww == log2_ceil(257));
            } else {
                let cw = choose|cw: int|
                    0 < cw < t.len() && (#[trigger] t[cw].string) == cur && w.trie
                        == spec_add_byte(t, cw as usize, pend[0]);
                lemma_add_byte_frame(t, cw as usize, pend[0]);
                lemma_add_along_node_string(t, cw, pend[0]);
                if (code as int) < t.len() {
                    assert(dn.2 == t[code as int].string);
                    assert(w.trie[code as int].string == t[code as int].string);
                    assert(dn.2 == pend);
                    assert(dn.2[0] == pend[0]);
                    assert(cur.push(dn.2[0]) == cur.push(pend[0]));
                    assert(dn.1 == spec_add_from(t, 0, cur.push(pend[0])));
                    assert(dn.1 == w.trie);
                } else {
                    // the code names the entry made at the last emission
                    assert((code as int) < w.trie.len());
                    assert(w.trie.len() == t.len() + 1 && (code as int) == t.len());
                    assert(w.trie[code as int].string == t[cw].string.push(pend[0]));
                    assert(pend == cur.push(pend[0]));
                    assert(pend[0] == cur[0]);
                    assert(dn.2 == cur.push(cur[0]));
                    assert(dn.2 == pend);
                    assert(dn.1 == spec_add_from(t, 0, cur.push(cur[0])));
                    assert(dn.1 == w.trie);
                }
                assert(dec_width(t) == ww) by {
                    if w.trie.len() == t.len() + 1 {
                        if w.trie.len() < MAX_SIZE {
                            assert(tenc2.len() == t.len() + 2);
                        } else {
                            assert(tenc2.len() == MAX_SIZE as int);
                            assert(t.len() == MAX_SIZE - 1);
                        }
                    } else {
                        assert(t.len() == MAX_SIZE as int);
                        assert(w.trie == spec_add_byte(t, ((choose|cw: int|
                            0 < cw < t.len() && (#[trigger] t[cw].string) == cur && w.trie
                                == spec_add_byte(t, cw as usize, pend[0]))) as usize, pend[0]));
                        assert(w.trie.len() == t.len());
                        assert(tenc2.len() == MAX_SIZE as int);
                    }
                }
            }
    }
}

/// One emission, coupling: after the catch-up the invariant holds again,
/// with the just-consumed code as the new witness.
#[verifier::rlimit(100)]
proof fn lemma_emit_state(x: Seq<u8>, i: int)
    requires
        1 <= i <= x.len(),
        lockstep_inv(x, i - 1),
        spec_feed(enc_state(x, i - 1).0, x[i - 1]).1 is Some,
    ensures
        lockstep_inv(x, i),
        1 <= enc_state(x, i - 1).0.index as int <= dec_state(x, i - 1).1.len(),
        enc_state(x, i - 1).0.index as int == dec_state(x, i - 1).1.len() ==> dec_state(
            x,
            i - 1,
        ).2.len() > 0,
        dec_width(dec_state(x, i - 1).1) == log2_ceil((enc_state(x, i).0.trie.len() - 1) as nat),
{
    lemma_emit_catchup(x, i);
    let w = enc_state(x, i - 1).0;
    let bits = enc_state(x, i - 1).1;
    let d = dec_state(x, i - 1);
    let byte = x[i - 1];
    let fr = spec_feed(w, byte);
    let pend = w.trie[w.index as int].string;
    let code = w.index;
    let tenc2 = fr.0.trie;
    let dn = dec_state(x, i);
    let out = d.3;
    assert(enc_state(x, i) == crate::enc_step(w, bits, byte));
    assert(find_child(w.trie[0].children, byte) == Some((byte + 1) as usize));
    assert(code >= 1);
    assert(0 <= w.trie[code as int].parent < code as int);
    assert(pend.len() >= 1);
    lemma_wf_add_byte(w.trie, code, byte);
    assert(dn.3 + seq![byte] =~= x.take(i - 1).push(byte));
    assert(x.take(i) =~= x.take(i - 1).push(byte));
    let pend2 = tenc2[(byte + 1) as int].string;
    assert(pend2 == tenc2[0].string.push(byte)) by {
        assert(find_child(tenc2[0].children, byte) == Some((byte + 1) as usize));
        crate::trie::lemma_find_child_some(tenc2[0].children, byte);
    }
    assert(pend2 =~= seq![byte]);
    assert(dn.3 + pend2 =~= x.take(i));
    // the new coupling witness is the code just consumed
    assert(0 < (code as int) < dn.1.len());
    assert(dn.1[code as int].string == dn.2);
    assert(tenc2 == spec_add_byte(dn.1, code, pend2[0]));
    if w.trie.len() < MAX_SIZE {
        assert(tenc2.len() == dn.1.len() + 1);
    } else {
        assert(dn.1.len() == MAX_SIZE as int);
    }
}

/// One emission, bit side: the decoder reads back exactly the code the
/// encoder packed, so the whole decode steps from the one state to the
/// next.
#[verifier::rlimit(100)]
proof fn lemma_emit_chain(x: Seq<u8>, i: int)
    requires
        1 <= i <= x.len(),
        spec_feed(enc_state(x, i - 1).0, x[i - 1]).1 is Some,
        walker_wf(enc_state(x, i - 1).0),
        trie_wf(dec_state(x, i - 1).1),
        dec_state(x, i - 1).0 == enc_state(x, i - 1).1.len(),
        1 <= enc_state(x, i - 1).0.index as int <= dec_state(x, i - 1).1.len(),
        enc_state(x, i - 1).0.index as int == dec_state(x, i - 1).1.len() ==> dec_state(
            x,
            i - 1,
        ).2.len() > 0,
        dec_width(dec_state(x, i - 1).1) == log2_ceil((enc_state(x, i).0.trie.len() - 1) as nat),
    ensures
        spec_decode_loop(
            pad_to_byte(spec_encode_bits(x)),
            dec_state(x, i - 1).0,
            dec_state(x, i - 1).1,
            dec_state(x, i - 1).2,
            dec_state(x, i - 1).3,
        ) == spec_decode_loop(
            pad_to_byte(spec_encode_bits(x)),
            dec_state(x, i).0,
            dec_state(x, i).1,
            dec_state(x, i).2,
            dec_state(x, i).3,
        ),
{
    let w = enc_state(x, i - 1).0;
    let bits = enc_state(x, i - 1).1;
    let d = dec_state(x, i - 1);
    let byte = x[i - 1];
    let fr = spec_feed(w, byte);
    assert(enc_state(x, i) == crate::enc_step(w, bits, byte));
    let code = w.index;
    let tenc2 = fr.0.trie;
    let ww = log2_ceil((tenc2.len() - 1) as nat);
    let t = d.1;
    let cur = d.2;
    let out = d.3;
    let dn = dec_state(x, i);
    lemma_wf_add_byte(w.trie, code, byte);
    let pfb = pad_to_byte(spec_encode_bits(x));
    lemma_enc_bits_prefix(x, i);
    assert(enc_state(x, i).1 == bits + bits_of((code - 1) as u64, ww));
    lemma2_to64();
    lemma_log2_ceil_bounds((tenc2.len() - 1) as nat);
    lemma_log2_ceil_le((tenc2.len() - 1) as nat, 16);
    assert(enc_state(x, i).1.len() == bits.len() + ww);
    assert(enc_state(x, i).1.len() <= spec_encode_bits(x).len());
    assert(pfb.len() >= spec_encode_bits(x).len());
    let b2 = enc_state(x, i).1;
    assert(spec_encode_bits(x).take(b2.len() as int) == b2);
    assert(b2.len() == bits.len() + ww && d.0 == bits.len());
    assert(b2.len() <= spec_encode_bits(x).len() <= pfb.len());
    assert forall|j: int| 0 <= j < ww implies #[trigger] pfb.subrange(d.0, d.0 + ww)[j]
        == bits_of((code - 1) as u64, ww)[j] by {
        assert(pfb.subrange(d.0, d.0 + ww)[j] == pfb[d.0 + j]);
        assert(b2[d.0 + j] == bits_of((code - 1) as u64, ww)[j]);
        assert(spec_encode_bits(x).take(b2.len() as int)[d.0 + j] == spec_encode_bits(x)[d.0 + j]);
        assert(spec_encode_bits(x)[d.0 + j] == b2[d.0 + j]);
        assert(pfb[d.0 + j] == spec_encode_bits(x)[d.0 + j]);
    }
    assert(pfb.subrange(d.0, d.0 + ww) =~= bits_of((code - 1) as u64, ww));
    assert((code - 1) as u64 as nat == code - 1);
    lemma_num_of_bits_of((code - 1) as u64, ww);
    lemma_dec_width_range(t);
    assert(num_of(pfb.subrange(d.0, d.0 + ww)) + 1 == code as int);
    assert(pfb.len() >= d.0 + ww) by {
        assert(enc_state(x, i).1.len() <= spec_encode_bits(x).len());
        assert(pfb.len() >= spec_encode_bits(x).len());
    }
    assert(spec_decode_loop(pfb, d.0, t, cur, out) == spec_decode_loop(
        pfb,
        dn.0,
        dn.1,
        dn.2,
        dn.3,
    ));
}

/// One emission: the dictionary and bit sides together.
proof fn lemma_lockstep_emit(x: Seq<u8>, i: int)
    requires
        1 <= i <= x.len(),
        lockstep_inv(x, i - 1),
        spec_feed(enc_state(x, i - 1).0, x[i - 1]).1 is Some,
    ensures
        lockstep_inv(x, i),
        spec_decode_loop(
            pad_to_byte(spec_encode_bits(x)),
            dec_state(x, i - 1).0,
            dec_state(x, i - 1).1,
            dec_state(x, i - 1).2,
            dec_state(x, i - 1).3,
        ) == spec_decode_loop(
            pad_to_byte(spec_encode_bits(x)),
            dec_state(x, i).0,
            dec_state(x, i).1,
            dec_state(x, i).2,
            dec_state(x, i).3,
        ),
{
    lemma_emit_state(x, i);
    lemma_emit_chain(x, i);
}

/// Law (the encoder-decoder lockstep): after any prefix of the input the decoder
/// run over the padded stream stands exactly at the state `dec_state`
/// names, coupled to the encoder as `lockstep_inv` says, and the whole
/// decode equals the decode from that state on.
pub proof fn lemma_lockstep(x: Seq<u8>, i: int)
    requires
        0 <= i <= x.len(),
    ensures
        lockstep_inv(x, i),
        spec_decode_loop(
            pad_to_byte(spec_encode_bits(x)),
            0,
            trie_init(),
            Seq::<u8>::empty(),
            Seq::<u8>::empty(),
        ) == spec_decode_loop(
            pad_to_byte(spec_encode_bits(x)),
            dec_state(x, i).0,
            dec_state(x, i).1,
            dec_state(x, i).2,
            dec_state(x, i).3,
        ),
    decreases i,
{
    crate::trie::lemma_trie_init_wf();
    if i == 0 {
        assert(dec_state(x, 0).3 + enc_state(x, 0).0.trie[0].string =~= x.take(0));
    } else {
        lemma_lockstep(x, i - 1);
        let w = enc_state(x, i - 1).0;
        let bits = enc_state(x, i - 1).1;
        let d = dec_state(x, i - 1);
        let byte = x[i - 1];
        let fr = spec_feed(w, byte);
        let pend = w.trie[w.index as int].string;
        assert(enc_state(x, i) == crate::enc_step(w, bits, byte));
        if fr.1 is None {
            // descent: the walker follows an existing edge; the decoder rests
            let c = find_child(w.trie[w.index as int].children, byte).unwrap();
            lemma_child_props(w.trie, w.index as int, byte);
            assert(dec_state(x, i) == d);
            let pend2 = w.trie[c as int].string;
            assert(pend2 == pend.push(byte));
            assert(d.3 + pend2 =~= (d.3 + pend).push(byte));
            assert(x.take(i) =~= x.take(i - 1).push(byte));
            if d.2.len() > 0 {
                assert(pend2[0] == pend[0]);
                let cw = choose|cw: int|
                    0 < cw < d.1.len() && (#[trigger] d.1[cw].string) == d.2 && w.trie
                        == spec_add_byte(d.1, cw as usize, pend[0]);
                assert(0 < cw < d.1.len() && d.1[cw].string == d.2 && fr.0.trie == spec_add_byte(
                    d.1,
                    cw as usize,
                    pend2[0],
                ));
            }
        } else {
            lemma_lockstep_emit(x, i);
        }
    }
}

/// Law (the round trip): decoding an encoded byte string yields that
/// byte string back, for every input, the empty one included.
#[verifier::rlimit(100)]
pub proof fn lemma_round_trip(x: Seq<u8>)
    ensures
        spec_decode(spec_encode(x)) == Some(x),
{
    let n = x.len() as int;
    lemma_lockstep(x, n);
    crate::trie::lemma_trie_init_wf();
    let w = enc_state(x, n).0;
    let bits = enc_state(x, n).1;
    let d = dec_state(x, n);
    let eb = spec_encode_bits(x);
    let pfb = pad_to_byte(eb);
    let pend = w.trie[w.index as int].string;
    assert(pfb.len() % 8 == 0);
    lemma_bits_of_bytes_of(pfb);
    assert(spec_decode(spec_encode(x)) == spec_decode_loop(
        pfb,
        0,
        trie_init(),
        Seq::<u8>::empty(),
        Seq::<u8>::empty(),
    ));
    lemma_log2_ceil_values();
    lemma2_to64();
    assert(x.take(n) =~= x);
    if w.index == 0 {
        // nothing was consumed: the input is empty and so is the stream
        assert(x =~= Seq::<u8>::empty());
        assert(eb == bits);
        assert(pfb =~= Seq::<bool>::empty());
        lemma_dec_width_range(trie_init());
        assert(spec_decode_loop(pfb, 0, trie_init(), Seq::<u8>::empty(), Seq::<u8>::empty())
            == Some(Seq::<u8>::empty()));
    } else {
        // the final code: consumed like any other, then the padding stalls
        let code = w.index;
        let ww = log2_ceil(w.trie.len() as nat);
        let t = d.1;
        let cur = d.2;
        let out = d.3;
        assert(eb == bits + bits_of((code - 1) as u64, ww));
        lemma_log2_ceil_bounds(w.trie.len() as nat);
        lemma_log2_ceil_le(w.trie.len() as nat, 16);
        assert(0 <= w.trie[code as int].parent < code as int);
        assert(pend.len() >= 1);
        // width agreement for the final code
        assert(dec_width(t) == ww) by {
            if cur.len() == 0 {
                assert(t == trie_init() && w.trie == trie_init());
            } else {
                if w.trie.len() == t.len() + 1 {
                } else {
                    assert(t.len() == MAX_SIZE as int);
                    let cw = choose|cw: int|
                        0 < cw < t.len() && (#[trigger] t[cw].string) == cur && w.trie
                            == spec_add_byte(t, cw as usize, pend[0]);
                    assert(w.trie == spec_add_byte(t, cw as usize, pend[0]));
                    assert(w.trie.len() == t.len());
                }
            }
        }
        // the bits of the final code close the stream
        assert(pfb.subrange(d.0, d.0 + ww) =~= bits_of((code - 1) as u64, ww)) by {
            assert(pfb.take(eb.len() as int) =~= eb);
        }
        assert((code - 1) as u64 as nat == code - 1);
        lemma_num_of_bits_of((code - 1) as u64, ww);
        lemma_dec_width_range(t);
        // the decoder's last step emits exactly the pending match
        let sf: Seq<u8>;
        let tf: Seq<NodeModel>;
        if (code as int) < t.len() {
            sf = t[code as int].string;
            if cur.len() > 0 {
                let cw = choose|cw: int|
                    0 < cw < t.len() && (#[trigger] t[cw].string) == cur && w.trie
                        == spec_add_byte(t, cw as usize, pend[0]);
                lemma_add_byte_frame(t, cw as usize, pend[0]);
                assert(sf == pend);
                lemma_add_along_node_string(t, cw, pend[0]);
                tf = spec_add_from(t, 0, cur.push(sf[0]));
                assert(tf == spec_add_byte(t, cw as usize, pend[0]));
                assert(tf == w.trie);
            } else {
                assert(t == trie_init() && w.trie == trie_init());
                assert(sf == pend);
                tf = t;
            }
        } else {
            // the final code names the entry of the last emission
            assert(cur.len() > 0) by {
                if cur.len() == 0 {
                    assert(t == trie_init() && w.trie == trie_init());
                    assert((code as int) < 257);
                    assert(false);
                }
            }
            let cw = choose|cw: int|
                0 < cw < t.len() && (#[trigger] t[cw].string) == cur && w.trie == spec_add_byte(
                    t,
                    cw as usize,
                    pend[0],
                );
            lemma_add_byte_frame(t, cw as usize, pend[0]);
            assert((code as int) < w.trie.len());
            assert(w.trie.len() == t.len() + 1 && (code as int) == t.len());
            assert(w.trie[code as int].string == t[cw].string.push(pend[0]));
            assert(pend == cur.push(pend[0]));
            assert(pend[0] == cur[0]);
            sf = cur.push(cur[0]);
            assert(sf == pend);
            lemma_add_along_node_string(t, cw, cur[0]);
            tf = spec_add_from(t, 0, sf);
            assert(tf == w.trie);
        }
        lemma_wf_add_byte(t, 0, 0);
        assert(trie_wf(tf)) by {
            if cur.len() > 0 {
                let cw = choose|cw: int|
                    0 < cw < t.len() && (#[trigger] t[cw].string) == cur && w.trie
                        == spec_add_byte(t, cw as usize, pend[0]);
                lemma_wf_add_byte(t, cw as usize, pend[0]);
            }
        }
        // the step happens, then the padding cannot hold another code
        assert(num_of(pfb.subrange(d.0, d.0 + ww)) + 1 == code as int);
        assert(pfb.len() == eb.len() + ((8 - eb.len() % 8) % 8));
        assert(pfb.len() - (d.0 + ww) < 8);
        lemma_dec_width_range(tf);
        assert(spec_decode_loop(pfb, d.0, t, cur, out) == spec_decode_loop(
            pfb,
            d.0 + ww,
            tf,
            sf,
            out + sf,
        ));
        assert(spec_decode_loop(pfb, d.0 + ww, tf, sf, out + sf) == Some(out + sf));
        assert(out + sf =~= x);
    }
}

} // verus!
