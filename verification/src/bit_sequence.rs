//! An append-only, random-read, bit-aligned buffer.
//!
//! [`BitSequence`] models an ordered sequence of bits (its view is a
//! `Seq<bool>`, least significant bit of each appended value first).  Values
//! up to 64 bits wide are appended at the tail, read back at any position,
//! and drained to a byte sink eight bits at a time, low bit of the first
//! appended value becoming the low bit of the first output byte.

use vstd::prelude::*;
use vstd::arithmetic::power2::{pow2, lemma_pow2_unfold, lemma_pow2_strictly_increases, lemma2_to64};

verus! {

/// The bit of `b` at position `j`, counting from the least significant end.
pub open spec fn nth_bit_of_byte(b: u8, j: nat) -> bool {
    ((b >> (j as u8)) & 1) == 1
}

/// The low `w` bits of `n`, least significant first.
pub open spec fn bits_of(n: u64, w: nat) -> Seq<bool> {
    Seq::new(w, |i: int| ((n >> (i as u64)) & 1) == 1)
}

/// The value of a bit string read least significant bit first.
pub open spec fn num_of(s: Seq<bool>) -> nat
    decreases s.len(),
{
    if s.len() == 0 {
        0
    } else {
        (if s[0] {
            1nat
        } else {
            0nat
        }) + 2 * num_of(s.drop_first())
    }
}

/// The whole bytes at the front of a bit string, one per eight bits.
pub open spec fn bytes_of(s: Seq<bool>) -> Seq<u8> {
    Seq::new((s.len() / 8) as nat, |k: int| num_of(s.subrange(8 * k, 8 * k + 8)) as u8)
}

/// The bit string zero-padded at the tail up to a byte boundary.
pub open spec fn pad_to_byte(s: Seq<bool>) -> Seq<bool> {
    s + Seq::new(((8 - s.len() % 8) % 8) as nat, |i: int| false)
}

/// The smallest `k` with `pow2(k) >= a`; `0` when `a <= 1`.
pub open spec fn log2_ceil(a: nat) -> nat
    decreases a,
{
    if a <= 1 {
        0
    } else {
        1 + log2_ceil(((a + 1) / 2) as nat)
    }
}

pub proof fn lemma_log2_ceil_bounds(a: nat)
    ensures
        pow2(log2_ceil(a)) >= a,
        a >= 2 ==> pow2((log2_ceil(a) - 1) as nat) < a,
    decreases a,
{
    if a <= 1 {
        assert(pow2(0) == 1) by {
            lemma2_to64();
        }
    } else {
        let b = ((a + 1) / 2) as nat;
        lemma_log2_ceil_bounds(b);
        let k = log2_ceil(b);
        lemma_pow2_unfold((k + 1) as nat);
        assert(pow2(k + 1) == 2 * pow2(k));
        assert(2 * b >= a);
        if b >= 2 {
            lemma_pow2_unfold(k as nat);
        } else {
            assert(a == 2);
            assert(pow2(0) == 1) by {
                lemma2_to64();
            }
        }
    }
}

/// A value `r` with `pow2(r) >= a` and (unless `r == 0`) `pow2(r-1) < a`
/// is exactly `log2_ceil(a)`.
pub proof fn lemma_log2_ceil_unique(a: nat, r: nat)
    requires
        pow2(r) >= a,
        r >= 1 ==> pow2((r - 1) as nat) < a,
    ensures
        r == log2_ceil(a),
{
    lemma_log2_ceil_bounds(a);
    let k = log2_ceil(a);
    if r < k {
        // then a >= 2, so pow2(k - 1) < a <= pow2(r), yet r <= k - 1
        assert(a >= 2);
        if r < k - 1 {
            lemma_pow2_strictly_increases(r, (k - 1) as nat);
        }
        assert(false);
    } else if r > k {
        if k < r - 1 {
            lemma_pow2_strictly_increases(k, (r - 1) as nat);
        }
        assert(false);
    }
}

/// The smallest `k` with `2^k >= a`: the number of bits needed to
/// distinguish `a` values (0 when `a <= 1`).
pub fn log_2(a: usize) -> (r: usize)
    requires
        a <= 0x4000_0000,
    ensures
        r == log2_ceil(a as nat),
{
    let mut result: usize = 0;
    let mut power: usize = 1;
    proof {
        lemma2_to64();
    }
    while power < a
        invariant
            a <= 0x4000_0000,
            power == pow2(result as nat),
            result >= 1 ==> pow2((result - 1) as nat) < a,
            power <= 0x4000_0000,
            result <= 30,
        decreases 31 - result,
    {
        proof {
            lemma2_to64();
            if result >= 30 {
                assert(false);
            }
            lemma_pow2_unfold((result + 1) as nat);
        }
        power *= 2;
        result += 1;
    }
    proof {
        lemma_log2_ceil_unique(a as nat, result as nat);
    }
    result
}

/// An ordered sequence of bits, packed into bytes; appends happen at the
/// tail and whole bytes are drained from the front.
pub struct BitSequence {
    data: Vec<u8>,
    len: usize,
}

impl View for BitSequence {
    type V = Seq<bool>;

    closed spec fn view(&self) -> Seq<bool> {
        Seq::new(self.len as nat, |i: int| nth_bit_of_byte(self.data[i / 8], (i % 8) as nat))
    }
}

impl BitSequence {
    #[verifier::type_invariant]
    spec fn inv(&self) -> bool {
        &&& self.data.len() == (self.len + 7) / 8
        &&& self.len % 8 != 0 ==> (self.data[self.len as int / 8] >> ((self.len % 8) as u8))
            == 0
    }

    /// An empty buffer.
    pub fn new() -> (r: Self)
        ensures
            r@ == Seq::<bool>::empty(),
    {
        let r = Self { data: Vec::new(), len: 0 };
        proof {
            assert(r@ =~= Seq::<bool>::empty());
        }
        r
    }

    /// The number of bits held.
    pub fn len(&self) -> (r: usize)
        ensures
            r == self@.len(),
    {
        self.len
    }

    /// Appends one bit at the tail.
    fn add_bit(&mut self, bit: bool)
        requires
            old(self)@.len() < usize::MAX,
        ensures
            final(self)@ == old(self)@.push(bit),
    {
        proof {
            use_type_invariant(&*self);
        }
        let mut tmp = Self { data: Vec::new(), len: 0 };
        core::mem::swap(self, &mut tmp);
        let Self { mut data, len } = tmp;
        let j = len % 8;
        if j == 0 {
            let b: u8 = if bit {
                1
            } else {
                0
            };
            data.push(b);
            proof {
                assert(((b >> 0u8) & 1 == 1) == bit) by (bit_vector)
                    requires
                        b == 1 || b == 0,
                        (b == 1) == bit,
                ;
                assert(b >> 1u8 == 0) by (bit_vector)
                    requires
                        b <= 1,
                ;
            }
        } else {
            let idx = len / 8;
            let b = data[idx];
            let jj: u8 = j as u8;
            let nb: u8 = if bit {
                b | (1u8 << jj)
            } else {
                b
            };
            data[idx] = nb;
            proof {
                assert(forall|k: u8|
                    k < jj ==> #[trigger] ((nb >> k) & 1) == ((b >> k) & 1)) by (bit_vector)
                    requires
                        1 <= jj < 8,
                        b >> jj == 0,
                        nb == b | (1u8 << jj) || nb == b,
                ;
                let j1: u8 = (jj + 1) as u8;
                assert((((nb >> jj) & 1) == 1) == bit && (j1 < 8 ==> nb >> j1 == 0))
                    by (bit_vector)
                    requires
                        1 <= jj < 8,
                        j1 == jj + 1,
                        b >> jj == 0,
                        if bit {
                            nb == b | (1u8 << jj)
                        } else {
                            nb == b
                        },
                ;
            }
        }
        *self = Self { data, len: len + 1 };
        proof {
            assert(self@ =~= old(self)@.push(bit));
        }
    }

    /// The bit at `position`.
    fn get_bit(&self, position: usize) -> (r: bool)
        requires
            position < self@.len(),
        ensures
            r == self@[position as int],
    {
        proof {
            use_type_invariant(self);
        }
        let idx = position / 8;
        let jj: u8 = (position % 8) as u8;
        ((self.data[idx] >> jj) & 1) == 1
    }

    /// Appends the low `number_size` bits of `number` at the tail, least
    /// significant bit first.
    pub fn add_number(&mut self, number: u64, number_size: usize)
        requires
            number_size <= 64,
            (number as nat) < pow2(number_size as nat),
            old(self)@.len() + number_size <= usize::MAX,
        ensures
            final(self)@ == old(self)@ + bits_of(number, number_size as nat),
    {
        let mut i: usize = 0;
        proof {
            assert(self@ =~= old(self)@ + bits_of(number, 0));
        }
        while i < number_size
            invariant
                number_size <= 64,
                i <= number_size,
                old(self)@.len() + number_size <= usize::MAX,
                self@ == old(self)@ + bits_of(number, i as nat),
            decreases number_size - i,
        {
            let bit = ((number >> (i as u64)) & 1) == 1;
            self.add_bit(bit);
            proof {
                assert(self@ =~= old(self)@ + bits_of(number, (i + 1) as nat));
            }
            i += 1;
        }
    }

    /// The value whose bit `i` is the bit at `start_position + i`, for
    /// `i < number_size`.  A pure read.
    pub fn get_number(&self, number_size: usize, start_position: usize) -> (r: u64)
        requires
            number_size <= 64,
            start_position + number_size <= self@.len(),
        ensures
            r as nat == num_of(
                self@.subrange(start_position as int, (start_position + number_size) as int),
            ),
            (r as nat) < pow2(number_size as nat),
    {
        let mut r: u64 = 0;
        let mut j: usize = 0;
        proof {
            lemma2_to64();
            assert(self@.subrange(start_position as int, start_position as int)
                =~= Seq::<bool>::empty());
        }
        while j < number_size
            invariant
                number_size <= 64,
                j <= number_size,
                start_position + number_size <= self@.len(),
                r as nat == num_of(
                    self@.subrange(start_position as int, (start_position + j) as int),
                ),
                (r as nat) < pow2(j as nat),
            decreases number_size - j,
        {
            let ghost prev = r;
            let ghost prefix = self@.subrange(start_position as int, (start_position + j) as int);
            let bit = self.get_bit(start_position + j);
            if bit {
                proof {
                    vstd::bits::lemma_u64_pow2_no_overflow(j as nat);
                    vstd::bits::lemma_u64_shl_is_mul(1u64, j as u64);
                }
                let one: u64 = 1u64 << (j as u64);
                proof {
                    let jj = j as u64;
                    assert(r | one == r + one) by (bit_vector)
                        requires
                            one == 1u64 << jj,
                            jj < 64,
                            r < one,
                    ;
                }
                r = r | one;
            }
            proof {
                assert(self@.subrange(start_position as int, (start_position + j + 1) as int)
                    =~= prefix.push(self@[(start_position + j) as int]));
                lemma_num_of_push(prefix, bit);
                lemma_pow2_unfold((j + 1) as nat);
            }
            j += 1;
        }
        r
    }

    /// Discards the bits before `position`; the rest shift down to start
    /// at position 0.
    pub fn cut(&mut self, position: usize)
        requires
            position <= old(self)@.len(),
        ensures
            final(self)@ == old(self)@.subrange(position as int, old(self)@.len() as int),
    {
        let n = self.len();
        let mut out = BitSequence::new();
        let mut i = position;
        proof {
            assert(out@ =~= old(self)@.subrange(position as int, position as int));
        }
        while i < n
            invariant
                position <= i <= n,
                self@ == old(self)@,
                n == self@.len(),
                out@ == old(self)@.subrange(position as int, i as int),
            decreases n - i,
        {
            let b = self.get_bit(i);
            out.add_bit(b);
            proof {
                assert(old(self)@.subrange(position as int, (i + 1) as int)
                    =~= old(self)@.subrange(position as int, i as int).push(old(self)@[i as int]));
            }
            i += 1;
        }
        *self = out;
    }

    /// Drains every whole byte at the front to `out`: the `k`-th byte
    /// delivered is the 8-bit read at position `8 * k`.  The trailing
    /// `len() % 8` bits are retained.
    pub fn dump_current(&mut self, out: &mut Vec<u8>)
        ensures
            final(out)@ == old(out)@ + bytes_of(old(self)@),
            final(self)@ == old(self)@.subrange(
                8 * (old(self)@.len() as int / 8),
                old(self)@.len() as int,
            ),
    {
        let total = self.len();
        let nbytes = total / 8;
        let mut k: usize = 0;
        proof {
            assert(out@ =~= old(out)@ + bytes_of(old(self)@).take(0));
        }
        while k < nbytes
            invariant
                k <= nbytes,
                self@ == old(self)@,
                total == self@.len(),
                nbytes == total / 8,
                out@ == old(out)@ + bytes_of(old(self)@).take(k as int),
            decreases nbytes - k,
        {
            let v = self.get_number(8, k * 8);
            out.push(v as u8);
            proof {
                assert(out@ =~= old(out)@ + bytes_of(old(self)@).take((k + 1) as int));
            }
            k += 1;
        }
        proof {
            assert(bytes_of(old(self)@).take(nbytes as int) =~= bytes_of(old(self)@));
        }
        self.cut(nbytes * 8);
    }

    /// Zero-pads the tail up to a byte boundary, then drains everything
    /// to `out`.  Consumes the buffer.
    pub fn dump_end(self, out: &mut Vec<u8>)
        requires
            self@.len() + 7 <= usize::MAX,
        ensures
            final(out)@ == old(out)@ + bytes_of(pad_to_byte(self@)),
    {
        let mut this = self;
        let ghost orig = this@;
        let empty_size = (8 - this.len() % 8) % 8;
        proof {
            vstd::arithmetic::power2::lemma_pow2_pos(empty_size as nat);
        }
        this.add_number(0, empty_size);
        proof {
            assert forall|i: int| 0 <= i < empty_size implies !bits_of(0u64, empty_size as nat)[i] by {
                let iu = i as u64;
                assert(((0u64 >> iu) & 1) != 1) by (bit_vector);
            }
            assert(this@ =~= pad_to_byte(orig));
        }
        this.dump_current(out);
    }
}

/// The bit string spelled by a byte string, low bit of each byte first:
/// the wire format that [`BitSequence::dump_end`] produces.
pub open spec fn bits_of_bytes(s: Seq<u8>) -> Seq<bool> {
    Seq::new(8 * s.len(), |i: int| nth_bit_of_byte(s[i / 8], (i % 8) as nat))
}

/// Absorbing one more byte appends its eight bits.
pub proof fn lemma_bits_of_bytes_push(s: Seq<u8>, b: u8)
    ensures
        bits_of_bytes(s.push(b)) == bits_of_bytes(s) + bits_of(b as u64, 8),
{
    assert forall|i: int| 0 <= i < 8 * s.len() + 8 implies bits_of_bytes(s.push(b))[i] == (
    bits_of_bytes(s) + bits_of(b as u64, 8))[i] by {
        if i < 8 * s.len() {
            assert(s.push(b)[i / 8] == s[i / 8]);
        } else {
            assert(i / 8 == s.len());
            assert(s.push(b)[i / 8] == b);
            assert(i % 8 == i - 8 * s.len());
            let jj = (i - 8 * s.len()) as u64;
            let jj8 = (i % 8) as u8;
            assert((((b as u64) >> jj) & 1 == 1) == ((b >> jj8) & 1 == 1)) by (bit_vector)
                requires
                    jj < 8,
                    jj8 == jj as u8,
            ;
        }
    }
    assert(bits_of_bytes(s.push(b)) =~= bits_of_bytes(s) + bits_of(b as u64, 8));
}

/// Draining splits along any whole-byte boundary.
pub proof fn lemma_bytes_of_split(s: Seq<bool>, d: int)
    requires
        0 <= d,
        8 * d <= s.len(),
    ensures
        bytes_of(s) == bytes_of(s.take(8 * d)) + bytes_of(s.skip(8 * d)),
{
    let a = bytes_of(s.take(8 * d));
    let b = bytes_of(s.skip(8 * d));
    assert forall|k: int| 0 <= k < s.len() as int / 8 implies bytes_of(s)[k] == (a + b)[k] by {
        if k < d {
            assert(s.take(8 * d).subrange(8 * k, 8 * k + 8) =~= s.subrange(8 * k, 8 * k + 8));
        } else {
            assert(s.skip(8 * d).subrange(8 * (k - d), 8 * (k - d) + 8) =~= s.subrange(
                8 * k,
                8 * k + 8,
            ));
        }
    }
    assert(bytes_of(s) =~= a + b);
}

/// A partial byte at the tail adds nothing to the drained bytes.
pub proof fn lemma_bytes_of_take_whole(s: Seq<bool>)
    ensures
        bytes_of(s.take(8 * (s.len() as int / 8))) == bytes_of(s),
{
    let w = 8 * (s.len() as int / 8);
    assert forall|k: int| 0 <= k < s.len() as int / 8 implies bytes_of(s.take(w))[k] == bytes_of(
        s,
    )[k] by {
        assert(s.take(w).subrange(8 * k, 8 * k + 8) =~= s.subrange(8 * k, 8 * k + 8));
    }
    assert(bytes_of(s.take(w)) =~= bytes_of(s));
}

/// Law: packing whole bytes and unpacking them yields the bits back.
pub proof fn lemma_bits_of_bytes_of(s: Seq<bool>)
    requires
        s.len() % 8 == 0,
    ensures
        bits_of_bytes(bytes_of(s)) == s,
{
    assert forall|i: int| 0 <= i < s.len() implies bits_of_bytes(bytes_of(s))[i] == s[i] by {
        let k = i / 8;
        let j = i % 8;
        lemma_dumped_byte_rebuilds_bits(s, k);
        let b = bytes_of(s)[k];
        let jj = j as u64;
        let jj8 = j as u8;
        assert((((b as u64) >> jj) & 1 == 1) == ((b >> jj8) & 1 == 1)) by (bit_vector)
            requires
                jj < 8,
                jj8 == jj as u8,
        ;
        assert(bits_of(b as u64, 8)[j] == s[8 * k + j]);
    }
    assert(bits_of_bytes(bytes_of(s)) =~= s);
}

/// `log2_ceil` never answers more bits than enough.
pub proof fn lemma_log2_ceil_le(a: nat, k: nat)
    requires
        a <= pow2(k),
    ensures
        log2_ceil(a) <= k,
{
    lemma_log2_ceil_bounds(a);
    if log2_ceil(a) > k {
        assert(a >= 2);
        if log2_ceil(a) - 1 > k {
            lemma_pow2_strictly_increases(k, (log2_ceil(a) - 1) as nat);
        }
        assert(false);
    }
}

/// Law: every bit string holds a value below `pow2` of its length.
pub proof fn lemma_num_of_bound(s: Seq<bool>)
    ensures
        num_of(s) < pow2(s.len()),
    decreases s.len(),
{
    lemma2_to64();
    if s.len() != 0 {
        lemma_num_of_bound(s.drop_first());
        lemma_pow2_unfold(s.len());
    }
}

pub proof fn lemma_num_of_push(s: Seq<bool>, b: bool)
    ensures
        num_of(s.push(b)) == num_of(s) + (if b {
            pow2(s.len())
        } else {
            0nat
        }),
    decreases s.len(),
{
    lemma2_to64();
    if s.len() == 0 {
        assert(s.push(b).drop_first() =~= Seq::<bool>::empty());
        assert(num_of(s.push(b)) == (if b {
            1nat
        } else {
            0nat
        }) + 2 * num_of(Seq::<bool>::empty()));
    } else {
        assert(s.push(b).drop_first() =~= s.drop_first().push(b));
        assert(num_of(s.push(b)) == (if s[0] {
            1nat
        } else {
            0nat
        }) + 2 * num_of(s.drop_first().push(b)));
        lemma_num_of_push(s.drop_first(), b);
        lemma_pow2_unfold(s.len());
    }
}

proof fn lemma_bits_of_drop_first(n: u64, w: nat)
    requires
        1 <= w <= 64,
    ensures
        bits_of(n, w).drop_first() == bits_of(n >> 1, (w - 1) as nat),
{
    assert forall|i: int| 0 <= i < w - 1 implies bits_of(n, w).drop_first()[i] == bits_of(
        n >> 1,
        (w - 1) as nat,
    )[i] by {
        let iu = i as u64;
        let i1 = (i + 1) as u64;
        assert((n >> 1) >> iu == n >> i1) by (bit_vector)
            requires
                iu < 63,
                i1 == iu + 1,
        ;
    }
    assert(bits_of(n, w).drop_first() =~= bits_of(n >> 1, (w - 1) as nat));
}

/// Law: reading back the low `w` bits of `n` yields `n` again.
pub proof fn lemma_num_of_bits_of(n: u64, w: nat)
    requires
        w <= 64,
        (n as nat) < pow2(w),
    ensures
        num_of(bits_of(n, w)) == n,
    decreases w,
{
    lemma2_to64();
    if w == 0 {
        assert(bits_of(n, 0) =~= Seq::<bool>::empty());
    } else {
        assert(((n >> 0u64) & 1) == n % 2 && n >> 1u64 == n / 2) by (bit_vector);
        lemma_bits_of_drop_first(n, w);
        lemma_pow2_unfold(w);
        lemma_num_of_bits_of(n >> 1u64, (w - 1) as nat);
    }
}

/// Law: a bit string is rebuilt from its value, at its own length.
pub proof fn lemma_bits_of_num_of(s: Seq<bool>)
    requires
        s.len() <= 64,
    ensures
        bits_of(num_of(s) as u64, s.len()) == s,
    decreases s.len(),
{
    lemma2_to64();
    lemma_num_of_bound(s);
    if s.len() == 0 {
        assert(bits_of(num_of(s) as u64, 0) =~= s);
    } else {
        if s.len() < 64 {
            lemma_pow2_strictly_increases(s.len(), 64);
        }
        assert(num_of(s) < 0x10000000000000000);
        let n = num_of(s) as u64;
        let a: u64 = if s[0] {
            1
        } else {
            0
        };
        let rest = s.drop_first();
        lemma_num_of_bound(rest);
        if s.len() - 1 < 64 {
            vstd::bits::lemma_u64_pow2_no_overflow((s.len() - 1) as nat);
        }
        let b = num_of(rest);
        assert(n == a + 2 * b);
        assert(((n >> 0u64) & 1) == n % 2 && n >> 1u64 == n / 2) by (bit_vector);
        assert(n % 2 == a && n / 2 == b);
        lemma_bits_of_drop_first(n, s.len());
        lemma_bits_of_num_of(rest);
        assert(n >> 1u64 == num_of(rest) as u64);
        assert(bits_of(n, s.len()).drop_first() == rest);
        assert forall|i: int| 0 <= i < s.len() implies bits_of(n, s.len())[i] == s[i] by {
            if i >= 1 {
                assert(bits_of(n, s.len()).drop_first()[i - 1] == bits_of(n, s.len())[i]);
                assert(rest[i - 1] == s[i]);
            }
        }
        assert(bits_of(n, s.len()) =~= s);
    }
}

/// Law: a value appended at some position is recovered by a read of the
/// same width at that position, whatever bits stand before or after it.
pub proof fn lemma_append_read_round_trip(prefix: Seq<bool>, v: u64, w: nat, suffix: Seq<bool>)
    requires
        w <= 64,
        (v as nat) < pow2(w),
    ensures
        num_of(
            (prefix + bits_of(v, w) + suffix).subrange(
                prefix.len() as int,
                (prefix.len() + w) as int,
            ),
        ) == v,
{
    assert((prefix + bits_of(v, w) + suffix).subrange(
        prefix.len() as int,
        (prefix.len() + w) as int,
    ) =~= bits_of(v, w));
    lemma_num_of_bits_of(v, w);
}

/// Law: appending a drained byte back at width 8 rebuilds the eight bits
/// it was drained from.
pub proof fn lemma_dumped_byte_rebuilds_bits(s: Seq<bool>, k: int)
    requires
        0 <= k < s.len() / 8,
    ensures
        bits_of(bytes_of(s)[k] as u64, 8) == s.subrange(8 * k, 8 * k + 8),
{
    let sub = s.subrange(8 * k, 8 * k + 8);
    lemma_num_of_bound(sub);
    lemma2_to64();
    lemma_bits_of_num_of(sub);
}

} // verus!
