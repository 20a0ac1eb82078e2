//! Bit streams written and read least significant bit first.

use vstd::prelude::*;
use vstd::arithmetic::power2::pow2;

verus! {

/// Bit `i` (0 is the least significant) of a byte.
pub open spec fn byte_bit(b: u8, i: int) -> bool {
    (b >> (i as u8)) & 1u8 == 1u8
}

/// Bit `p` of a byte sequence: byte `p / 8`, bit `p % 8`.
pub open spec fn stream_bit(bytes: Seq<u8>, p: int) -> bool {
    byte_bit(bytes[p / 8], p % 8)
}

/// Bit `p` of the input of a reader: bits past the end read as zero.
pub open spec fn reader_bit(input: Seq<u8>, p: int) -> bool {
    0 <= p < 8 * input.len() && stream_bit(input, p)
}

/// Bit `i` of the number `v`.
pub open spec fn bit_of(v: nat, i: nat) -> bool {
    (v / pow2(i)) % 2 == 1
}

/// The low `len` bits of `v`, least significant first.
pub open spec fn bits_of(v: nat, len: nat) -> Seq<bool> {
    Seq::new(len, |i: int| bit_of(v, i as nat))
}

/// The number whose bits, least significant first, are `b`.
pub open spec fn bits_value(b: Seq<bool>) -> nat
    decreases b.len(),
{
    if b.len() == 0 {
        0
    } else {
        bits_value(b.drop_last()) + if b.last() {
            pow2((b.len() - 1) as nat)
        } else {
            0
        }
    }
}

/// `n` zero bits.
pub open spec fn zero_bits(n: nat) -> Seq<bool> {
    Seq::new(n, |i: int| false)
}

/// The number of bits after the leading one of `v`, that is `floor(log2(v))`,
/// and 0 for `v <= 1`.
pub open spec fn gamma_len(v: nat) -> nat
    decreases v,
{
    if v <= 1 {
        0
    } else {
        1 + gamma_len(v / 2)
    }
}

/// The Elias gamma code of `v`: as many zeros as `v` has bits after its
/// leading one, a one, then those bits least significant first.
pub open spec fn gamma_bits(v: nat) -> Seq<bool> {
    zero_bits(gamma_len(v)) + seq![true] + bits_of(v, gamma_len(v))
}

/// `m` where bit `p` of `bits` is set, 0 where it is clear or past the end.
pub open spec fn bit_mask(bits: Seq<bool>, p: int, m: u8) -> u8 {
    if 0 <= p < bits.len() && bits[p] {
        m
    } else {
        0
    }
}

/// The byte holding bits `o..o + 8` of `bits`, the first in the low bit,
/// bits past the end zero.
pub open spec fn bits_byte(bits: Seq<bool>, o: int) -> u8 {
    bit_mask(bits, o, 1) | bit_mask(bits, o + 1, 2) | bit_mask(bits, o + 2, 4) | bit_mask(bits, o + 3, 8) | bit_mask(
        bits,
        o + 4,
        16,
    ) | bit_mask(bits, o + 5, 32) | bit_mask(bits, o + 6, 64) | bit_mask(bits, o + 7, 128)
}

/// The bytes holding `bits`, eight to a byte, the last byte filled up with
/// zero bits.
pub open spec fn pack_bits(bits: Seq<bool>) -> Seq<u8> {
    Seq::new(((bits.len() + 7) / 8) as nat, |k: int| bits_byte(bits, 8 * k))
}

/// A byte is the sum of its set bits.
proof fn lemma_byte_bits(x: u8, m0: u8, m1: u8, m2: u8, m3: u8, m4: u8, m5: u8, m6: u8, m7: u8)
    by (bit_vector)
    requires
        m0 == 0 || m0 == 1,
        m1 == 0 || m1 == 2,
        m2 == 0 || m2 == 4,
        m3 == 0 || m3 == 8,
        m4 == 0 || m4 == 16,
        m5 == 0 || m5 == 32,
        m6 == 0 || m6 == 64,
        m7 == 0 || m7 == 128,
        ((x >> 0u8) & 1u8 == 1u8) == (m0 != 0),
        ((x >> 1u8) & 1u8 == 1u8) == (m1 != 0),
        ((x >> 2u8) & 1u8 == 1u8) == (m2 != 0),
        ((x >> 3u8) & 1u8 == 1u8) == (m3 != 0),
        ((x >> 4u8) & 1u8 == 1u8) == (m4 != 0),
        ((x >> 5u8) & 1u8 == 1u8) == (m5 != 0),
        ((x >> 6u8) & 1u8 == 1u8) == (m6 != 0),
        ((x >> 7u8) & 1u8 == 1u8) == (m7 != 0),
    ensures
        x == m0 | m1 | m2 | m3 | m4 | m5 | m6 | m7,
{
}

/// Bytes whose bits are `bits` followed by zero bits are `pack_bits(bits)`.
pub proof fn lemma_pack_bits(r: Seq<u8>, bits: Seq<bool>)
    requires
        r.len() == (bits.len() + 7) / 8,
        forall|p: int| 0 <= p < bits.len() ==> #[trigger] stream_bit(r, p) == bits[p],
        forall|p: int| bits.len() <= p < 8 * r.len() ==> !#[trigger] stream_bit(r, p),
    ensures
        r == pack_bits(bits),
{
    let pb = pack_bits(bits);
    assert forall|k: int| 0 <= k < r.len() implies r[k] == pb[k] by {
        assert forall|j: int| 0 <= j < 8 implies byte_bit(r[k], j) == (0 <= 8 * k + j < bits.len() && bits[8 * k + j]) by {
            assert((8 * k + j) / 8 == k && (8 * k + j) % 8 == j);
            assert(stream_bit(r, 8 * k + j) == byte_bit(r[k], j));
        }
        assert(byte_bit(r[k], 0) == (bit_mask(bits, 8 * k, 1) != 0));
        assert(byte_bit(r[k], 1) == (bit_mask(bits, 8 * k + 1, 2) != 0));
        assert(byte_bit(r[k], 2) == (bit_mask(bits, 8 * k + 2, 4) != 0));
        assert(byte_bit(r[k], 3) == (bit_mask(bits, 8 * k + 3, 8) != 0));
        assert(byte_bit(r[k], 4) == (bit_mask(bits, 8 * k + 4, 16) != 0));
        assert(byte_bit(r[k], 5) == (bit_mask(bits, 8 * k + 5, 32) != 0));
        assert(byte_bit(r[k], 6) == (bit_mask(bits, 8 * k + 6, 64) != 0));
        assert(byte_bit(r[k], 7) == (bit_mask(bits, 8 * k + 7, 128) != 0));
        lemma_byte_bits(
            r[k],
            bit_mask(bits, 8 * k, 1),
            bit_mask(bits, 8 * k + 1, 2),
            bit_mask(bits, 8 * k + 2, 4),
            bit_mask(bits, 8 * k + 3, 8),
            bit_mask(bits, 8 * k + 4, 16),
            bit_mask(bits, 8 * k + 5, 32),
            bit_mask(bits, 8 * k + 6, 64),
            bit_mask(bits, 8 * k + 7, 128),
        );
    }
    assert(r =~= pb);
}

proof fn lemma_set_bit(cur: u8, bp: u8, i: u8)
    by (bit_vector)
    requires
        bp < 8,
        cur >> bp == 0,
    ensures
        i < bp ==> ((cur | (1u8 << bp)) >> i) & 1u8 == (cur >> i) & 1u8,
        ((cur | (1u8 << bp)) >> bp) & 1u8 == 1u8,
        bp < 7 ==> (cur | (1u8 << bp)) >> ((bp + 1) as u8) == 0,
        bp < 7 ==> cur >> ((bp + 1) as u8) == 0,
        bp <= i < 8 ==> (cur >> i) & 1u8 == 0,
{
}

/// The value of `len` bits is below `2^len`.
pub proof fn lemma_bits_value_bound(b: Seq<bool>)
    ensures
        bits_value(b) < pow2(b.len()),
    decreases b.len(),
{
    if b.len() == 0 {
        vstd::arithmetic::power2::lemma2_to64();
    } else {
        lemma_bits_value_bound(b.drop_last());
        vstd::arithmetic::power2::lemma_pow2_unfold(b.len());
    }
}

/// Reading back the low `len` bits of `v` gives `v` modulo `2^len`.
pub proof fn lemma_bits_of_value(v: nat, len: nat)
    ensures
        bits_value(bits_of(v, len)) == v % pow2(len),
    decreases len,
{
    vstd::arithmetic::power2::lemma_pow2_pos(len);
    if len == 0 {
        vstd::arithmetic::power2::lemma2_to64();
        assert(bits_of(v, 0) =~= Seq::<bool>::empty());
    } else {
        let l1 = (len - 1) as nat;
        lemma_bits_of_value(v, l1);
        assert(bits_of(v, len).drop_last() =~= bits_of(v, l1));
        vstd::arithmetic::power2::lemma_pow2_unfold(len);
        vstd::arithmetic::power2::lemma_pow2_pos(l1);
        vstd::arithmetic::div_mod::lemma_mod_breakdown(v as int, pow2(l1) as int, 2);
        assert(pow2(l1) * 2 == pow2(len));
    }
}

/// One halving step of the bits of `v`.
proof fn lemma_halve(v: nat, i: nat)
    ensures
        v / pow2(i) / 2 == v / pow2(i + 1),
{
    vstd::arithmetic::power2::lemma_pow2_pos(i);
    vstd::arithmetic::power2::lemma_pow2_unfold(i + 1);
    vstd::arithmetic::div_mod::lemma_div_denominator(v as int, pow2(i) as int, 2);
    assert(pow2(i) * 2 == pow2(i + 1));
}

/// A bit writer; bits fill each byte from its least significant bit up.
pub struct TLG6BitStream {
    buf: Vec<u8>,
    cur: u8,
    bit_pos: u8,
    bits: Ghost<Seq<bool>>,
}

impl View for TLG6BitStream {
    type V = Seq<bool>;

    /// The bits written so far.
    closed spec fn view(&self) -> Seq<bool> {
        self.bits@
    }
}

impl TLG6BitStream {
    /// The completed bytes hold the bits written, the pending byte the rest.
    pub closed spec fn wf(&self) -> bool {
        &&& self.bit_pos < 8
        &&& self.bits@.len() == 8 * self.buf@.len() + self.bit_pos
        &&& forall|p: int| 0 <= p < 8 * self.buf@.len() ==> #[trigger] stream_bit(self.buf@, p) == self.bits@[p]
        &&& forall|i: int| 0 <= i < self.bit_pos ==> #[trigger] byte_bit(self.cur, i) == self.bits@[8 * self.buf@.len() + i]
        &&& self.cur >> self.bit_pos == 0
    }

    /// An empty stream.
    pub fn new() -> (s: Self)
        ensures
            s.wf(),
            s@ == Seq::<bool>::empty(),
    {
        assert(0u8 >> 0u8 == 0u8) by (bit_vector);
        TLG6BitStream { buf: Vec::new(), cur: 0, bit_pos: 0, bits: Ghost(Seq::empty()) }
    }

    /// The number of completed bytes.
    pub fn get_byte_pos(&self) -> (r: i32)
        requires
            self.wf(),
        ensures
            r == (self@.len() / 8) as i32,
    {
        self.buf.len() as i32
    }

    /// The number of completed bytes, as a size.
    pub fn byte_len(&self) -> (r: usize)
        requires
            self.wf(),
        ensures
            r == self@.len() / 8,
    {
        self.buf.len()
    }

    /// The number of bits written.
    pub fn get_bit_length(&self) -> (r: u32)
        requires
            self.wf(),
            self@.len() <= u32::MAX,
        ensures
            r == self@.len(),
    {
        (self.buf.len() * 8 + self.bit_pos as usize) as u32
    }

    /// Appends one bit.
    pub fn put_1bit(&mut self, b: bool)
        requires
            old(self).wf(),
        ensures
            final(self).wf(),
            final(self)@ == old(self)@.push(b),
    {
        let ghost old_cur = self.cur;
        let bp = self.bit_pos;
        if b {
            self.cur = self.cur | (1u8 << bp);
        }
        proof {
            assert forall|i: int| 0 <= i < bp implies #[trigger] byte_bit(self.cur, i) == byte_bit(old_cur, i) by {
                lemma_set_bit(old_cur, bp, i as u8);
            }
            lemma_set_bit(old_cur, bp, bp);
        }
        self.bits = Ghost(self.bits@.push(b));
        self.bit_pos = bp + 1;
        if self.bit_pos == 8 {
            let ghost n = self.buf@.len();
            self.buf.push(self.cur);
            proof {
                assert forall|p: int| 0 <= p < 8 * self.buf@.len() implies #[trigger] stream_bit(self.buf@, p) == self.bits@[p] by {
                    if p < 8 * n {
                        assert(stream_bit(old(self).buf@, p) == old(self).bits@[p]);
                    } else {
                        assert(p / 8 == n);
                        assert(byte_bit(self.cur, p % 8) == self.bits@[8 * n + p % 8]);
                    }
                }
            }
            self.cur = 0;
            self.bit_pos = 0;
            assert(0u8 >> 0u8 == 0u8) by (bit_vector);
        } else {
            proof {
                lemma_set_bit(old_cur, bp, 0);
                assert(self.cur >> self.bit_pos == 0);
                assert forall|i: int| 0 <= i < self.bit_pos implies #[trigger] byte_bit(self.cur, i) == self.bits@[8 * self.buf@.len() + i] by {
                    if i < bp {
                        assert(byte_bit(old_cur, i) == old(self).bits@[8 * self.buf@.len() + i]);
                    }
                }
            }
        }
    }

    /// Appends the low `len` bits of `v`, least significant first.
    pub fn put_value(&mut self, v: u32, len: u32)
        requires
            old(self).wf(),
        ensures
            final(self).wf(),
            final(self)@ == old(self)@ + bits_of(v as nat, len as nat),
    {
        let mut t = v;
        let mut i: u32 = 0;
        proof {
            vstd::arithmetic::power2::lemma2_to64();
            assert(self@ =~= old(self)@ + bits_of(v as nat, 0));
        }
        while i < len
            invariant
                self.wf(),
                i <= len,
                t == v as nat / pow2(i as nat),
                self@ == old(self)@ + bits_of(v as nat, i as nat),
            decreases len - i,
        {
            self.put_1bit(t % 2 == 1);
            proof {
                lemma_halve(v as nat, i as nat);
                assert(self@ =~= old(self)@ + bits_of(v as nat, (i + 1) as nat));
            }
            t = t / 2;
            i = i + 1;
        }
    }

    /// Appends the Elias gamma code of `v` (a single one bit for `v <= 1`).
    pub fn put_gamma(&mut self, v: u32)
        requires
            old(self).wf(),
        ensures
            final(self).wf(),
            final(self)@ == old(self)@ + gamma_bits(v as nat),
    {
        let mut t = v;
        let mut cnt: u32 = 0;
        proof {
            vstd::arithmetic::power2::lemma2_to64();
        }
        while t > 1
            invariant
                cnt + gamma_len(t as nat) == gamma_len(v as nat),
                t < pow2((32 - cnt) as nat),
                cnt <= 32,
            decreases t,
        {
            proof {
                if cnt >= 31 {
                    vstd::arithmetic::power2::lemma2_to64();
                    assert(false);
                }
                vstd::arithmetic::power2::lemma_pow2_unfold((32 - cnt) as nat);
            }
            t = t / 2;
            cnt = cnt + 1;
        }
        let mut k: u32 = 0;
        proof {
            assert(self@ =~= old(self)@ + zero_bits(0));
        }
        while k < cnt
            invariant
                self.wf(),
                k <= cnt,
                self@ == old(self)@ + zero_bits(k as nat),
            decreases cnt - k,
        {
            self.put_1bit(false);
            proof {
                assert(self@ =~= old(self)@ + zero_bits((k + 1) as nat));
            }
            k = k + 1;
        }
        self.put_1bit(true);
        if cnt > 0 {
            self.put_value(v, cnt);
        }
        proof {
            assert(gamma_len(v as nat) == cnt);
            assert(self@ =~= old(self)@ + gamma_bits(v as nat));
        }
    }

    /// Hands out the bytes written, the last one padded with zero bits, and
    /// leaves the stream empty.
    pub fn take_data(&mut self) -> (r: Vec<u8>)
        requires
            old(self).wf(),
        ensures
            final(self).wf(),
            final(self)@ == Seq::<bool>::empty(),
            r@.len() == (old(self)@.len() + 7) / 8,
            forall|p: int| 0 <= p < old(self)@.len() ==> #[trigger] stream_bit(r@, p) == old(self)@[p],
            forall|p: int| old(self)@.len() <= p < 8 * r@.len() ==> !#[trigger] stream_bit(r@, p),
            r@ == pack_bits(old(self)@),
    {
        let ghost n = self.buf@.len();
        if self.bit_pos != 0 {
            self.buf.push(self.cur);
        }
        let mut data: Vec<u8> = Vec::new();
        std::mem::swap(&mut data, &mut self.buf);
        proof {
            let bp = old(self).bit_pos;
            assert forall|p: int| 0 <= p < old(self)@.len() implies #[trigger] stream_bit(data@, p) == old(self)@[p] by {
                if p < 8 * n {
                    assert(stream_bit(old(self).buf@, p) == old(self).bits@[p]);
                } else {
                    assert(p / 8 == n);
                    assert(byte_bit(old(self).cur, p % 8) == old(self).bits@[8 * n + p % 8]);
                }
            }
            assert forall|p: int| old(self)@.len() <= p < 8 * data@.len() implies !#[trigger] stream_bit(data@, p) by {
                assert(p / 8 == n);
                lemma_set_bit(old(self).cur, bp, (p % 8) as u8);
            }
            lemma_pack_bits(data@, old(self)@);
        }
        self.cur = 0;
        self.bit_pos = 0;
        self.bits = Ghost(Seq::empty());
        assert(0u8 >> 0u8 == 0u8) by (bit_vector);
        data
    }
}

/// The value of the `n` input bits from bit `p` on.
pub open spec fn window_value(input: Seq<u8>, p: int, n: nat) -> nat {
    bits_value(Seq::new(n, |i: int| reader_bit(input, p + i)))
}

/// What reading a `len`-bit value at bit `p` gives, and where it leaves the
/// reader.  An exhausted reader gives 0 and stays; otherwise the value is
/// taken from the 32-bit window that starts at the byte of `p`, so at most
/// `32 - p % 8` bits count, and the reader moves on by `len` bits.
pub open spec fn read_value(input: Seq<u8>, p: int, len: nat) -> (nat, int) {
    if len == 0 || p >= 8 * input.len() {
        (0, p)
    } else {
        (window_value(input, p, if len < 32 - p % 8 { len } else { (32 - p % 8) as nat }), p + len)
    }
}

/// What reading a gamma code at bit `p` gives, `cnt` zero bits having been
/// read already, and where it leaves the reader.  Running out of input gives
/// 1, and so does a run of 32 zero bits, which no writer produces.
pub open spec fn gamma_read(input: Seq<u8>, p: int, cnt: nat) -> (nat, int)
    decreases 32 - cnt,
{
    if p >= 8 * input.len() {
        (1, p)
    } else if reader_bit(input, p) {
        if cnt == 0 {
            (1, p + 1)
        } else {
            let (v, q) = read_value(input, p + 1, cnt);
            (v + pow2(cnt), q)
        }
    } else if cnt + 1 >= 32 || p + 1 >= 8 * input.len() {
        (1, p + 1)
    } else {
        gamma_read(input, p + 1, cnt + 1)
    }
}

proof fn lemma_read_bit(b: u8, bp: u8)
    by (bit_vector)
    requires
        bp < 8,
    ensures
        ((b >> bp) & 1u8 != 0) == ((b >> bp) & 1u8 == 1u8),
{
}

/// The leading one of `v` is bit `gamma_len(v)`.
pub proof fn lemma_gamma_len_bounds(v: nat)
    requires
        v >= 1,
    ensures
        pow2(gamma_len(v)) <= v < pow2(gamma_len(v) + 1),
    decreases v,
{
    vstd::arithmetic::power2::lemma2_to64();
    if v > 1 {
        lemma_gamma_len_bounds(v / 2);
        vstd::arithmetic::power2::lemma_pow2_unfold(gamma_len(v));
        vstd::arithmetic::power2::lemma_pow2_unfold(gamma_len(v) + 1);
    }
}

/// Values below `2^(k + 1)` have at most `k` bits after their leading one.
pub proof fn lemma_gamma_len_le(v: nat, k: nat)
    requires
        1 <= v < pow2(k + 1),
    ensures
        gamma_len(v) <= k,
{
    lemma_gamma_len_bounds(v);
    if gamma_len(v) > k {
        vstd::arithmetic::power2::lemma_pow2_strictly_increases(k + 1, gamma_len(v));
    }
}

/// Reading `len` bits where the low `len` bits of `v` were written gives
/// back `v` modulo `2^len`, as long as they lie in the reader's window.
pub proof fn lemma_value_roundtrip(input: Seq<u8>, p: int, v: nat, len: nat)
    requires
        0 < len,
        0 <= p,
        len + p % 8 <= 32,
        p + len <= 8 * input.len(),
        forall|i: int| 0 <= i < len ==> #[trigger] reader_bit(input, p + i) == bit_of(v, i as nat),
    ensures
        read_value(input, p, len) == (v % pow2(len), p + len),
{
    assert(Seq::new(len, |i: int| reader_bit(input, p + i)) =~= bits_of(v, len));
    lemma_bits_of_value(v, len);
}

/// A number with `cnt` bits after its leading one is `2^cnt` plus its low
/// `cnt` bits.
proof fn lemma_top_bit(v: nat, cnt: nat)
    requires
        pow2(cnt) <= v < pow2(cnt + 1),
    ensures
        v == v % pow2(cnt) + pow2(cnt),
{
    vstd::arithmetic::power2::lemma_pow2_unfold(cnt + 1);
    vstd::arithmetic::power2::lemma_pow2_pos(cnt);
    let m = pow2(cnt) as int;
    vstd::arithmetic::div_mod::lemma_fundamental_div_mod(v as int, m);
    assert(v as int / m == 1) by {
        vstd::arithmetic::div_mod::lemma_div_is_ordered(m, v as int, m);
        vstd::arithmetic::div_mod::lemma_div_by_self(m);
        vstd::arithmetic::div_mod::lemma_div_is_ordered(v as int, 2 * m - 1, m);
        vstd::arithmetic::div_mod::lemma_fundamental_div_mod_converse(2 * m - 1, m, 1, m - 1);
    }
}

/// The one that ends the zeros of a gamma code, and the bits after it.
#[verifier::spinoff_prover]
proof fn lemma_gamma_tail(input: Seq<u8>, p: int, v: nat)
    requires
        1 <= v,
        gamma_len(v) <= 25,
        0 <= p,
        p + gamma_bits(v).len() <= 8 * input.len(),
        forall|i: int| 0 <= i < gamma_bits(v).len() ==> #[trigger] reader_bit(input, p + i) == gamma_bits(v)[i],
    ensures
        gamma_read(input, p + gamma_len(v), gamma_len(v)) == (v, p + gamma_bits(v).len()),
{
    let cnt = gamma_len(v);
    let gb = gamma_bits(v);
    assert(reader_bit(input, p + cnt) == gb[cnt as int]);
    assert(gb[cnt as int]);
    lemma_gamma_len_bounds(v);
    if cnt > 0 {
        assert forall|i: int| 0 <= i < cnt implies #[trigger] reader_bit(input, p + cnt + 1 + i) == bit_of(v, i as nat) by {
            assert(reader_bit(input, p + (cnt + 1 + i)) == gb[cnt + 1 + i]);
        }
        lemma_value_roundtrip(input, p + cnt + 1, v, cnt);
        lemma_top_bit(v, cnt);
        assert(gamma_read(input, p + cnt, cnt) == (v % pow2(cnt) + pow2(cnt), p + cnt + 1 + cnt));
    } else {
        vstd::arithmetic::power2::lemma2_to64();
    }
}

#[verifier::spinoff_prover]
proof fn lemma_gamma_zeros(input: Seq<u8>, p: int, v: nat, k: nat)
    requires
        1 <= v,
        gamma_len(v) <= 25,
        k <= gamma_len(v),
        0 <= p,
        p + gamma_bits(v).len() <= 8 * input.len(),
        forall|i: int| 0 <= i < gamma_bits(v).len() ==> #[trigger] reader_bit(input, p + i) == gamma_bits(v)[i],
    ensures
        gamma_read(input, p + k, k) == (v, p + gamma_bits(v).len()),
    decreases gamma_len(v) - k,
{
    if k == gamma_len(v) {
        lemma_gamma_tail(input, p, v);
    } else {
        assert(reader_bit(input, p + k) == gamma_bits(v)[k as int]);
        lemma_gamma_zeros(input, p, v, k + 1);
    }
}

/// Reading a gamma code where `gamma_bits(v)` was written gives back `v`
/// and moves past the code, for `1 <= v < 2^26`.
pub proof fn lemma_gamma_roundtrip(input: Seq<u8>, p: int, v: nat)
    requires
        1 <= v < 0x4000000,
        0 <= p,
        p + gamma_bits(v).len() <= 8 * input.len(),
        forall|i: int| 0 <= i < gamma_bits(v).len() ==> #[trigger] reader_bit(input, p + i) == gamma_bits(v)[i],
    ensures
        gamma_read(input, p, 0) == (v, p + gamma_bits(v).len()),
{
    vstd::arithmetic::power2::lemma2_to64();
    lemma_gamma_len_le(v, 25);
    lemma_gamma_zeros(input, p, v, 0);
    assert(p + 0 == p);
}

/// A bit reader over a byte sequence; bits past its end read as zero.
pub struct TLG6BitReader {
    data: Vec<u8>,
    byte_pos: usize,
    bit_pos: u8,
}

impl TLG6BitReader {
    /// The bytes read.
    pub closed spec fn input(&self) -> Seq<u8> {
        self.data@
    }

    /// The position of the next bit.
    pub closed spec fn pos(&self) -> int {
        8 * self.byte_pos + self.bit_pos
    }

    pub closed spec fn wf(&self) -> bool {
        &&& self.bit_pos < 8
        &&& self.data@.len() + 8 <= usize::MAX
    }

    /// A reader at the first bit of `data`.
    pub fn new(data: &[u8]) -> (r: Self)
        requires
            data@.len() + 8 <= usize::MAX,
        ensures
            r.wf(),
            r.input() == data@,
            r.pos() == 0,
    {
        let mut v: Vec<u8> = Vec::new();
        v.extend_from_slice(data);
        proof {
            assert forall|k: int| 0 <= k < v@.len() implies v@[k] == data@[k] by {
                assert(cloned(data@[k], v@[k]));
            }
            assert(v@ =~= data@);
        }
        TLG6BitReader { data: v, byte_pos: 0, bit_pos: 0 }
    }

    /// The byte of the next bit.
    pub fn get_byte_pos(&self) -> (r: i32)
        requires
            self.wf(),
        ensures
            r == (self.pos() / 8) as i32,
    {
        self.byte_pos as i32
    }

    /// Whether the next bit lies past the end of the input.
    pub fn exhausted(&self) -> (r: bool)
        requires
            self.wf(),
        ensures
            r == (self.pos() >= 8 * self.input().len()),
    {
        self.byte_pos >= self.data.len()
    }

    /// Moves on by `n` bits.
    pub fn skip_bits(&mut self, n: u32)
        requires
            old(self).wf(),
            n <= u32::MAX - 8,
            old(self).pos() / 8 + (old(self).pos() % 8 + n) / 8 <= usize::MAX,
        ensures
            final(self).wf(),
            final(self).input() == old(self).input(),
            final(self).pos() == old(self).pos() + n,
    {
        let total = self.bit_pos as u32 + n;
        assert(total >> 3u32 == total / 8 && total & 7u32 == total % 8) by (bit_vector);
        self.byte_pos = self.byte_pos + (total >> 3) as usize;
        self.bit_pos = (total & 7) as u8;
    }

    /// Reads one bit; an exhausted reader gives `false` and stays.
    pub fn get_1bit(&mut self) -> (r: bool)
        requires
            old(self).wf(),
        ensures
            final(self).wf(),
            final(self).input() == old(self).input(),
            old(self).pos() >= 8 * old(self).input().len() ==> !r && final(self).pos() == old(self).pos(),
            old(self).pos() < 8 * old(self).input().len() ==> r == reader_bit(old(self).input(), old(self).pos())
                && final(self).pos() == old(self).pos() + 1,
    {
        if self.byte_pos >= self.data.len() {
            return false;
        }
        let bp = self.bit_pos;
        let b = (self.data[self.byte_pos] >> bp) & 1 != 0;
        proof {
            lemma_read_bit(self.data@[self.byte_pos as int], bp);
            let p = old(self).pos();
            assert(p / 8 == self.byte_pos && p % 8 == bp);
        }
        if bp == 7 {
            self.bit_pos = 0;
            self.byte_pos = self.byte_pos + 1;
        } else {
            self.bit_pos = bp + 1;
        }
        b
    }

    /// Reads a `len`-bit value, least significant bit first: see
    /// `read_value`.
    pub fn get_value(&mut self, len: u32) -> (r: u32)
        requires
            old(self).wf(),
            len < 32,
        ensures
            final(self).wf(),
            final(self).input() == old(self).input(),
            (r as nat, final(self).pos()) == read_value(old(self).input(), old(self).pos(), len as nat),
    {
        if len == 0 || self.exhausted() {
            return 0;
        }
        let ghost p = self.pos();
        let ghost input = self.data@;
        let bp = self.bit_pos;
        let n: u32 = if len < 32 - bp as u32 {
            len
        } else {
            32 - bp as u32
        };
        let mut bi = self.byte_pos;
        let mut bb = bp;
        let mut v: u32 = 0;
        let mut i: u32 = 0;
        proof {
            assert(Seq::new(0, |k: int| reader_bit(input, p + k)) =~= Seq::<bool>::empty());
            vstd::arithmetic::power2::lemma2_to64();
        }
        while i < n
            invariant
                input == self.data@,
                self.wf(),
                p == self.pos(),
                p < 8 * input.len(),
                n <= 32,
                i <= n,
                bb < 8,
                8 * bi + bb == p + i,
                bi <= self.byte_pos + 4,
                v as nat == window_value(input, p, i as nat),
                (v as nat) < pow2(i as nat),
            decreases n - i,
        {
            let bit = if bi < self.data.len() {
                proof {
                    lemma_read_bit(input[bi as int], bb);
                }
                (self.data[bi] >> bb) & 1 != 0
            } else {
                false
            };
            proof {
                let q = p + i;
                assert(q / 8 == bi && q % 8 == bb);
                assert(bit == reader_bit(input, q));
                let s1 = Seq::new((i + 1) as nat, |k: int| reader_bit(input, p + k));
                assert(s1.drop_last() =~= Seq::new(i as nat, |k: int| reader_bit(input, p + k)));
                vstd::bits::lemma_u32_pow2_no_overflow(i as nat);
                vstd::bits::lemma_u32_shl_is_mul(1, i);
                vstd::arithmetic::power2::lemma_pow2_unfold((i + 1) as nat);
                vstd::arithmetic::power2::lemma2_to64();
                if i + 1 < 32 {
                    vstd::arithmetic::power2::lemma_pow2_strictly_increases((i + 1) as nat, 32);
                }
                assert(s1.last() == bit);
            }
            if bit {
                v = v + (1u32 << i);
            }
            if bb == 7 {
                bb = 0;
                bi = bi + 1;
            } else {
                bb = bb + 1;
            }
            i = i + 1;
        }
        self.skip_bits(len);
        v
    }

    /// Reads an Elias gamma code: see `gamma_read`.
    pub fn get_gamma(&mut self) -> (r: u32)
        requires
            old(self).wf(),
        ensures
            final(self).wf(),
            final(self).input() == old(self).input(),
            (r as nat, final(self).pos()) == gamma_read(old(self).input(), old(self).pos(), 0),
    {
        let ghost input = self.data@;
        let ghost g = gamma_read(input, self.pos(), 0);
        let mut cnt: u32 = 0;
        let mut one = false;
        while !one
            invariant
                self.wf(),
                self.input() == input,
                input == old(self).input(),
                g == gamma_read(old(self).input(), old(self).pos(), 0),
                cnt < 32,
                !one ==> g == gamma_read(input, self.pos(), cnt as nat),
                !one && cnt > 0 ==> self.pos() < 8 * input.len(),
                one ==> 0 < self.pos() <= 8 * input.len() && g == (if cnt == 0 {
                    (1nat, self.pos())
                } else {
                    let (v, q) = read_value(input, self.pos(), cnt as nat);
                    (v + pow2(cnt as nat), q)
                }),
            decreases 8 * input.len() - self.pos() + (if one { 0int } else { 1int }),
        {
            let ghost p = self.pos();
            let ghost c0 = cnt;
            if self.get_1bit() {
                one = true;
            } else {
                cnt = cnt + 1;
                if self.exhausted() || cnt == 32 {
                    proof {
                        assert(g == gamma_read(input, p, c0 as nat));
                        if p >= 8 * input.len() {
                            assert(self.pos() == p);
                        } else {
                            assert(self.pos() == p + 1);
                        }
                    }
                    return 1;
                }
            }
        }
        if cnt == 0 {
            return 1;
        }
        proof {
            vstd::bits::lemma_u32_pow2_no_overflow(cnt as nat);
            vstd::bits::lemma_u32_shl_is_mul(1, cnt);
        }
        let ghost q = self.pos();
        let v = self.get_value(cnt);
        proof {
            vstd::arithmetic::power2::lemma2_to64();
            if q < 8 * input.len() {
                let n = if cnt < 32 - q % 8 { cnt as nat } else { (32 - q % 8) as nat };
                assert(v as nat == window_value(input, q, n));
                lemma_bits_value_bound(Seq::new(n, |i: int| reader_bit(input, q + i)));
                if n < cnt {
                    vstd::arithmetic::power2::lemma_pow2_strictly_increases(n, cnt as nat);
                }
            }
            if cnt < 31 {
                vstd::arithmetic::power2::lemma_pow2_strictly_increases(cnt as nat, 31);
            }
        }
        v + (1u32 << cnt)
    }
}

} // verus!
