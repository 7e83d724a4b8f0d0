//! A lossless LZW compressor and decompressor with variable-width codes.
//!
//! The codec packs dictionary codes into a bit stream ([`BitSequence`]),
//! keeps the dictionary as a byte-labelled trie over a flat node array
//! ([`Trie`]), and drives the classic LZW loops in [`encode`] and [`decode`].
//! A code is transmitted as `index - 1`, low bit first, with a width that
//! grows along with the dictionary; between zero and seven zero bits pad
//! the final byte.

use vstd::prelude::*;

pub mod bit_sequence;
pub mod round_trip;
pub mod trie;

pub use bit_sequence::BitSequence;
pub use bit_sequence::log_2;
pub use trie::Trie;
pub use trie::TrieWalker;

use bit_sequence::{bits_of, bits_of_bytes, bytes_of, log2_ceil, num_of, pad_to_byte};
use bit_sequence::{
    lemma_bits_of_bytes_push, lemma_bytes_of_split, lemma_bytes_of_take_whole,
    lemma_log2_ceil_bounds, lemma_log2_ceil_le,
};
use trie::{
    find_child, spec_add_byte, spec_add_from, spec_feed, trie_init, trie_wf, walker_wf,
    NodeModel, WalkerModel, MAX_SIZE,
};
use vstd::arithmetic::power2::{lemma2_to64, pow2};

verus! {

/// Bits the encoder buffers before draining whole bytes to the output.
pub const BIT_SEQUENCE_BUFFER_SIZE: usize = 8 * 1024 * 1024;

/// Decoding failed: a code on the wire exceeds the legal range.
#[derive(Clone, Copy, Debug, PartialEq, Eq, Structural)]
pub enum DecodeError {
    CorruptStream,
}

/// One encoder step: feed `byte` to the walker; when a code is emitted,
/// append `code - 1` at the width that fits the grown dictionary less the
/// never-emitted code 0.
pub open spec fn enc_step(w: WalkerModel, bits: Seq<bool>, byte: u8) -> (WalkerModel, Seq<bool>) {
    let r = spec_feed(w, byte);
    match r.1 {
        None => (r.0, bits),
        Some(code) => (
            r.0,
            bits + bits_of((code - 1) as u64, log2_ceil((r.0.trie.len() - 1) as nat)),
        ),
    }
}

/// Walker state and emitted bits after the first `i` input bytes.
pub open spec fn enc_state(x: Seq<u8>, i: int) -> (WalkerModel, Seq<bool>)
    decreases i,
{
    if i <= 0 {
        (WalkerModel { trie: trie_init(), index: 0 }, Seq::<bool>::empty())
    } else {
        let prev = enc_state(x, i - 1);
        enc_step(prev.0, prev.1, x[i - 1])
    }
}

/// Every bit the encoder emits for input `x`, the final flushed code
/// included (absent only for empty input, which emits nothing).
pub open spec fn spec_encode_bits(x: Seq<u8>) -> Seq<bool> {
    let st = enc_state(x, x.len() as int);
    if st.0.index == 0 {
        st.1
    } else {
        st.1 + bits_of((st.0.index - 1) as u64, log2_ceil(st.0.trie.len()))
    }
}

/// The encoder's whole output for input `x`: its bits, zero-padded to a
/// byte boundary and packed low bit first.
pub open spec fn spec_encode(x: Seq<u8>) -> Seq<u8> {
    bytes_of(pad_to_byte(spec_encode_bits(x)))
}

/// The width the decoder reads the next code with: sized against the
/// dictionary one step ahead, frozen once the dictionary is full.
pub open spec fn dec_width(t: Seq<NodeModel>) -> nat {
    if t.len() < MAX_SIZE {
        log2_ceil((t.len() + 1) as nat)
    } else {
        log2_ceil(MAX_SIZE as nat)
    }
}

/// The decoder's run over the bit stream `bits` from position `pos`:
/// reads codes while a whole one fits, looks each up (synthesizing the
/// one-step-ahead string when a code names the entry about to be made),
/// and grows the dictionary exactly as the encoder did.  `None` is a
/// corrupt stream: a code beyond the next free index.
pub open spec fn spec_decode_loop(
    bits: Seq<bool>,
    pos: int,
    t: Seq<NodeModel>,
    cur: Seq<u8>,
    out: Seq<u8>,
) -> Option<Seq<u8>>
    decreases bits.len() - pos,
{
    let width = dec_width(t);
    if t.len() < 257 || pos < 0 || width < 1 {
        Some(out)
    } else if bits.len() - pos < width {
        Some(out)
    } else {
        let next = num_of(bits.subrange(pos, pos + width)) + 1;
        if next < t.len() {
            let s = t[next as int].string;
            let t2 = if cur.len() > 0 {
                spec_add_from(t, 0, cur.push(s[0]))
            } else {
                t
            };
            spec_decode_loop(bits, pos + width, t2, s, out + s)
        } else if next == t.len() && cur.len() > 0 {
            let s = cur.push(cur[0]);
            spec_decode_loop(bits, pos + width, spec_add_from(t, 0, s), s, out + s)
        } else {
            None
        }
    }
}

/// What decoding the byte string `x` yields: the decoded bytes, or `None`
/// for a corrupt stream.
pub open spec fn spec_decode(x: Seq<u8>) -> Option<Seq<u8>> {
    spec_decode_loop(bits_of_bytes(x), 0, trie_init(), Seq::empty(), Seq::empty())
}

/// Appends every byte of `s` to `out`.
fn extend_bytes(out: &mut Vec<u8>, s: &Vec<u8>)
    ensures
        final(out)@ == old(out)@ + s@,
{
    let mut i: usize = 0;
    proof {
        assert(out@ =~= old(out)@ + s@.take(0));
    }
    while i < s.len()
        invariant
            i <= s@.len(),
            out@ == old(out)@ + s@.take(i as int),
        decreases s@.len() - i,
    {
        out.push(s[i]);
        proof {
            assert(out@ =~= old(out)@ + s@.take(i as int + 1));
        }
        i += 1;
    }
    proof {
        assert(old(out)@ + s@.take(s@.len() as int) =~= old(out)@ + s@);
    }
}

/// Compresses `input`: feeds each byte to the trie walker, packs each
/// emitted code at the agreed width, flushes the trailing match, and
/// zero-pads the last byte.
pub fn encode(input: &[u8]) -> (out: Vec<u8>)
    ensures
        out@ == spec_encode(input@),
{
    let mut dictionary = TrieWalker::new();
    let mut bit_sequence = BitSequence::new();
    let mut out: Vec<u8> = Vec::new();
    let n = input.len();
    let mut i: usize = 0;
    proof {
        lemma2_to64();
        assert(enc_state(input@, 0).1.take(0) =~= Seq::<bool>::empty());
        assert(enc_state(input@, 0).1.skip(0) =~= Seq::<bool>::empty());
        assert(bytes_of(Seq::<bool>::empty()) =~= Seq::<u8>::empty());
    }
    while i < n
        invariant
            n == input@.len(),
            i <= n,
            walker_wf(dictionary@),
            dictionary@ == enc_state(input@, i as int).0,
            8 * out@.len() <= enc_state(input@, i as int).1.len(),
            out@ == bytes_of(enc_state(input@, i as int).1.take(8 * out@.len() as int)),
            bit_sequence@ == enc_state(input@, i as int).1.skip(8 * out@.len() as int),
            bit_sequence@.len() <= BIT_SEQUENCE_BUFFER_SIZE,
        decreases n - i,
    {
        let byte = input[i];
        let ghost w_old = dictionary@;
        let ghost bits_old = enc_state(input@, i as int).1;
        let ghost d = 8 * out@.len() as int;
        let emitted = dictionary.add_byte(byte);
        proof {
            assert(enc_state(input@, i as int + 1) == enc_step(w_old, bits_old, input@[i as int]));
        }
        if let Some(index) = emitted {
            proof {
                assert(find_child(w_old.trie[0].children, byte) == Some((byte + 1) as usize));
                assert(index != 0);
                trie::lemma_wf_add_byte(w_old.trie, index, byte);
            }
            let dict_len = dictionary.len();
            let width = log_2(dict_len - 1);
            proof {
                lemma2_to64();
                lemma_log2_ceil_bounds((dict_len - 1) as nat);
                lemma_log2_ceil_le((dict_len - 1) as nat, 16);
            }
            bit_sequence.add_number((index - 1) as u64, width);
            proof {
                let bits_new = enc_state(input@, i as int + 1).1;
                assert(bit_sequence@ =~= bits_new.skip(d));
                assert(bits_new.take(d) =~= bits_old.take(d));
            }
            if bit_sequence.len() > BIT_SEQUENCE_BUFFER_SIZE {
                let ghost bits_new = enc_state(input@, i as int + 1).1;
                let ghost nb = bit_sequence@.len() as int / 8;
                bit_sequence.dump_current(&mut out);
                proof {
                    let d2 = d + 8 * nb;
                    lemma_bytes_of_split(bits_new.take(d2), d / 8);
                    assert(bits_new.take(d2).take(d) =~= bits_new.take(d));
                    assert(bits_new.take(d2).skip(d) =~= bits_new.skip(d).take(8 * nb));
                    lemma_bytes_of_take_whole(bits_new.skip(d));
                    assert(bits_new.skip(d).take(8 * (bits_new.skip(d).len() as int / 8))
                        =~= bits_new.skip(d).take(8 * nb));
                    assert(bit_sequence@ =~= bits_new.skip(d2));
                    assert(8 * out@.len() as int == d2);
                }
            }
        }
        i += 1;
    }
    let ghost bits_n = enc_state(input@, n as int).1;
    let ghost d = 8 * out@.len() as int;
    let dict_len = dictionary.len();
    let last = dictionary.get_last();
    if last != 0 {
        let width = log_2(dict_len);
        proof {
            lemma_log2_ceil_bounds(dict_len as nat);
            lemma_log2_ceil_le(dict_len as nat, 16);
            lemma2_to64();
        }
        bit_sequence.add_number((last - 1) as u64, width);
        proof {
            assert(bit_sequence@ =~= spec_encode_bits(input@).skip(d));
            assert(spec_encode_bits(input@).take(d) =~= bits_n.take(d));
        }
    }
    let ghost eb = spec_encode_bits(input@);
    proof {
        assert(bit_sequence@ =~= eb.skip(d));
        assert(out@ == bytes_of(eb.take(d)));
    }
    bit_sequence.dump_end(&mut out);
    proof {
        lemma_bytes_of_split(pad_to_byte(eb), d / 8);
        assert(pad_to_byte(eb).take(d) =~= eb.take(d));
        assert(pad_to_byte(eb).skip(d) =~= pad_to_byte(eb.skip(d)));
        assert(out@ =~= bytes_of(pad_to_byte(eb)));
    }
    out
}

/// In a well-formed trie every node but the root spells at least one byte.
proof fn lemma_node_string_nonempty(t: Seq<NodeModel>, k: int)
    requires
        trie_wf(t),
        1 <= k < t.len(),
    ensures
        t[k].string.len() >= 1,
{
    assert(0 <= t[k].parent < k);
}

/// Decompresses `input`: reads codes at the width the dictionary size
/// dictates, emits each code's string, and grows the dictionary in
/// lockstep with the encoder.  Fails if and only if a code on the wire
/// exceeds the next free index (or names the pending entry before any
/// string was decoded): exactly when `spec_decode` yields nothing.
pub fn decode(input: &[u8]) -> (r: Result<Vec<u8>, DecodeError>)
    requires
        8 * input@.len() <= usize::MAX,
    ensures
        match r {
            Ok(v) => spec_decode(input@) == Some(v@),
            Err(e) => spec_decode(input@) is None && e == DecodeError::CorruptStream,
        },
{
    let mut dictionary = Trie::new();
    let mut bit_sequence = BitSequence::new();
    let n = input.len();
    let mut i: usize = 0;
    proof {
        lemma2_to64();
        assert(bits_of_bytes(input@.take(0)) =~= Seq::<bool>::empty());
    }
    while i < n
        invariant
            n == input@.len(),
            8 * n <= usize::MAX,
            i <= n,
            bit_sequence@ == bits_of_bytes(input@.take(i as int)),
            dictionary@ == trie_init(),
            trie_wf(dictionary@),
        decreases n - i,
    {
        proof {
            lemma2_to64();
        }
        bit_sequence.add_number(input[i] as u64, 8);
        proof {
            lemma_bits_of_bytes_push(input@.take(i as int), input@[i as int]);
            assert(input@.take(i as int).push(input@[i as int]) =~= input@.take(i as int + 1));
        }
        i += 1;
    }
    proof {
        assert(input@.take(n as int) =~= input@);
    }
    let ghost all_bits = bits_of_bytes(input@);
    let mut pos: usize = 0;
    let mut cur: Vec<u8> = Vec::new();
    let mut out: Vec<u8> = Vec::new();
    loop
        invariant_except_break
            bit_sequence@ == all_bits,
            pos <= all_bits.len(),
            trie_wf(dictionary@),
            spec_decode_loop(all_bits, pos as int, dictionary@, cur@, out@) == spec_decode(
                input@,
            ),
        ensures
            spec_decode(input@) == Some(out@),
        decreases all_bits.len() - pos,
    {
        let ghost t = dictionary@;
        let dict_len = dictionary.len();
        let width = if dict_len < MAX_SIZE {
            log_2(dict_len + 1)
        } else {
            log_2(MAX_SIZE)
        };
        proof {
            lemma2_to64();
            assert(width == dec_width(t));
            if width == 0 {
                lemma_log2_ceil_bounds((dict_len + 1) as nat);
                lemma_log2_ceil_bounds(MAX_SIZE as nat);
                assert(false);
            }
            if dict_len < MAX_SIZE {
                lemma_log2_ceil_le((dict_len + 1) as nat, 16);
            }
            lemma_log2_ceil_le(MAX_SIZE as nat, 16);
        }
        if bit_sequence.len() - pos < width {
            proof {
                assert(spec_decode_loop(all_bits, pos as int, t, cur@, out@) == Some(out@));
            }
            break;
        }
        let value = bit_sequence.get_number(width, pos);
        let next = (value as usize) + 1;
        pos = pos + width;
        if next < dict_len {
            let string = dictionary.get_by_index(next).unwrap();
            proof {
                lemma_node_string_nonempty(t, next as int);
            }
            extend_bytes(&mut out, &string);
            if cur.len() > 0 {
                let c0 = string[0];
                cur.push(c0);
                dictionary.add(cur.as_slice());
            }
            cur = string;
        } else if next == dict_len && cur.len() > 0 {
            let c0 = cur[0];
            cur.push(c0);
            dictionary.add(cur.as_slice());
            extend_bytes(&mut out, &cur);
        } else {
            proof {
                assert(spec_decode(input@) is None);
            }
            return Err(DecodeError::CorruptStream);
        }
    }
    Ok(out)
}

} // verus!
