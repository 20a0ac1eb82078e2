//! Adaptive Golomb-Rice coding of residuals, with runs of zeros and of
//! non-zero values gamma-coded.

use vstd::prelude::*;
use vstd::arithmetic::power2::pow2;
use super::bitstream::{
    bits_of, gamma_bits, gamma_len, gamma_read, lemma_gamma_len_bounds, lemma_gamma_len_le,
    lemma_gamma_roundtrip, lemma_value_roundtrip, reader_bit, read_value, zero_bits, TLG6BitReader,
    TLG6BitStream,
};

verus! {

/// Number of adaptation steps before the running sum is halved.
pub const GOLOMB_N_COUNT: usize = 4;

/// Bytes of zero bits after which a unary code gives up and stores its
/// value in eight bits instead.
pub const GOLOMB_GIVE_UP_BYTES: i32 = 4;

/// The end of the `i`-th run of equal parameters in the table for step `n`:
/// the parameter is `i` for running sums from the end of run `i - 1` up to
/// this value.
pub open spec fn golomb_threshold(n: int, i: int) -> int {
    if n == 0 {
        if i == 0 { 3 } else if i == 1 { 10 } else if i == 2 { 25 } else if i == 3 { 52 } else if i == 4 { 115 } else if i == 5 { 223 } else if i == 6 { 446 } else if i == 7 { 894 } else { 1024 }
    } else if n == 1 {
        if i == 0 { 3 } else if i == 1 { 8 } else if i == 2 { 21 } else if i == 3 { 45 } else if i == 4 { 96 } else if i == 5 { 191 } else if i == 6 { 383 } else if i == 7 { 767 } else { 1024 }
    } else if n == 2 {
        if i == 0 { 2 } else if i == 1 { 7 } else if i == 2 { 19 } else if i == 3 { 40 } else if i == 4 { 79 } else if i == 5 { 165 } else if i == 6 { 320 } else if i == 7 { 640 } else { 1024 }
    } else {
        if i == 0 { 2 } else if i == 1 { 5 } else if i == 2 { 14 } else if i == 3 { 32 } else if i == 4 { 65 } else if i == 5 { 126 } else if i == 6 { 255 } else if i == 7 { 513 } else { 1024 }
    }
}

/// The Golomb parameter for running sum `a` at step `n`: the number of
/// run ends at or below `a`.
pub open spec fn golomb_k(a: int, n: int) -> int {
    (if a >= golomb_threshold(n, 0) { 1int } else { 0int })
        + (if a >= golomb_threshold(n, 1) { 1int } else { 0int })
        + (if a >= golomb_threshold(n, 2) { 1int } else { 0int })
        + (if a >= golomb_threshold(n, 3) { 1int } else { 0int })
        + (if a >= golomb_threshold(n, 4) { 1int } else { 0int })
        + (if a >= golomb_threshold(n, 5) { 1int } else { 0int })
        + (if a >= golomb_threshold(n, 6) { 1int } else { 0int })
        + (if a >= golomb_threshold(n, 7) { 1int } else { 0int })
}

/// The format's Golomb parameter table, as runs: for step `n`, the
/// running sums from 0 up take parameter 0 for the first count of the row,
/// parameter 1 for the next count, and so on.
pub open spec fn golomb_counts(n: int) -> Seq<int> {
    if n == 0 {
        seq![3, 7, 15, 27, 63, 108, 223, 448, 130]
    } else if n == 1 {
        seq![3, 5, 13, 24, 51, 95, 192, 384, 257]
    } else if n == 2 {
        seq![2, 5, 12, 21, 39, 86, 155, 320, 384]
    } else {
        seq![2, 3, 9, 18, 33, 61, 129, 258, 511]
    }
}

/// The sum of the first `i` counts of a row.
pub open spec fn counts_before(row: Seq<int>, i: int) -> int
    decreases i,
{
    if i <= 0 {
        0
    } else {
        counts_before(row, i - 1) + row[i - 1]
    }
}

/// The parameter for running sum `a` at step `n` is the one the format's
/// table gives: `i` where `a` falls in the `i`-th run of row `n`; the runs
/// of each row cover the sums `0..1024`.  For instance at step 1 the sums
/// 0..3 take 0, 3..8 take 1, 8..21 take 2.
pub proof fn lemma_golomb_table(n: int, i: int, a: int)
    requires
        0 <= n < 4,
        0 <= i < 9,
        counts_before(golomb_counts(n), i) <= a < counts_before(golomb_counts(n), i + 1),
    ensures
        golomb_k(a, n) == i,
        counts_before(golomb_counts(n), 9) == 1024,
{
    let row = golomb_counts(n);
    assert(counts_before(row, 0) == 0);
    assert(counts_before(row, 1) == row[0]);
    assert(counts_before(row, 2) == counts_before(row, 1) + row[1]);
    assert(counts_before(row, 3) == counts_before(row, 2) + row[2]);
    assert(counts_before(row, 4) == counts_before(row, 3) + row[3]);
    assert(counts_before(row, 5) == counts_before(row, 4) + row[4]);
    assert(counts_before(row, 6) == counts_before(row, 5) + row[5]);
    assert(counts_before(row, 7) == counts_before(row, 6) + row[6]);
    assert(counts_before(row, 8) == counts_before(row, 7) + row[7]);
    assert(counts_before(row, 9) == counts_before(row, 8) + row[8]);
}

fn threshold(n: i32, i: i32) -> (t: i32)
    ensures
        t == golomb_threshold(n as int, i as int),
{
    if n == 0 {
        if i == 0 { 3 } else if i == 1 { 10 } else if i == 2 { 25 } else if i == 3 { 52 } else if i == 4 { 115 } else if i == 5 { 223 } else if i == 6 { 446 } else if i == 7 { 894 } else { 1024 }
    } else if n == 1 {
        if i == 0 { 3 } else if i == 1 { 8 } else if i == 2 { 21 } else if i == 3 { 45 } else if i == 4 { 96 } else if i == 5 { 191 } else if i == 6 { 383 } else if i == 7 { 767 } else { 1024 }
    } else if n == 2 {
        if i == 0 { 2 } else if i == 1 { 7 } else if i == 2 { 19 } else if i == 3 { 40 } else if i == 4 { 79 } else if i == 5 { 165 } else if i == 6 { 320 } else if i == 7 { 640 } else { 1024 }
    } else {
        if i == 0 { 2 } else if i == 1 { 5 } else if i == 2 { 14 } else if i == 3 { 32 } else if i == 4 { 65 } else if i == 5 { 126 } else if i == 6 { 255 } else if i == 7 { 513 } else { 1024 }
    }
}

/// The Golomb parameter for running sum `a` at step `n`.
pub fn golomb_param(a: i32, n: i32) -> (k: u32)
    ensures
        k == golomb_k(a as int, n as int),
        k <= 8,
{
    let mut k: u32 = 0;
    let mut i: i32 = 0;
    while i < 8
        invariant
            0 <= i <= 8,
            k <= i,
            k == (if i > 0 && a >= golomb_threshold(n as int, 0) { 1int } else { 0int })
                + (if i > 1 && a >= golomb_threshold(n as int, 1) { 1int } else { 0int })
                + (if i > 2 && a >= golomb_threshold(n as int, 2) { 1int } else { 0int })
                + (if i > 3 && a >= golomb_threshold(n as int, 3) { 1int } else { 0int })
                + (if i > 4 && a >= golomb_threshold(n as int, 4) { 1int } else { 0int })
                + (if i > 5 && a >= golomb_threshold(n as int, 5) { 1int } else { 0int })
                + (if i > 6 && a >= golomb_threshold(n as int, 6) { 1int } else { 0int })
                + (if i > 7 && a >= golomb_threshold(n as int, 7) { 1int } else { 0int }),
        decreases 8 - i,
    {
        if a >= threshold(n, i) {
            k = k + 1;
        }
        i = i + 1;
    }
    k
}

/// The table of Golomb parameters: row `a` (running sum, below 1024),
/// column `n` (adaptation step).
pub fn golomb_table() -> (t: Vec<Vec<u8>>)
    ensures
        t@.len() == GOLOMB_N_COUNT * 2 * 128,
        forall|a: int| 0 <= a < t@.len() ==> (#[trigger] t@[a])@.len() == GOLOMB_N_COUNT,
        forall|a: int, n: int| 0 <= a < t@.len() && 0 <= n < GOLOMB_N_COUNT ==> #[trigger] t@[a]@[n] == golomb_k(a, n),
{
    let mut t: Vec<Vec<u8>> = Vec::new();
    let mut a: i32 = 0;
    while a < 1024
        invariant
            0 <= a <= 1024,
            t@.len() == a,
            forall|a2: int| 0 <= a2 < a ==> (#[trigger] t@[a2])@.len() == 4,
            forall|a2: int, n: int| 0 <= a2 < a && 0 <= n < 4 ==> #[trigger] t@[a2]@[n] == golomb_k(a2, n),
        decreases 1024 - a,
    {
        let mut row: Vec<u8> = Vec::new();
        let mut n: i32 = 0;
        while n < 4
            invariant
                0 <= n <= 4,
                row@.len() == n,
                forall|n2: int| 0 <= n2 < n ==> row@[n2] == golomb_k(a as int, n2),
            decreases 4 - n,
        {
            row.push(golomb_param(a, n) as u8);
            n = n + 1;
        }
        t.push(row);
        a = a + 1;
    }
    t
}

/// `gamma_len(v) == k` exactly when `2^k <= v < 2^(k + 1)`.
pub proof fn lemma_gamma_len_eq(v: nat, k: nat)
    requires
        pow2(k) <= v < pow2(k + 1),
    ensures
        gamma_len(v) == k,
{
    vstd::arithmetic::power2::lemma_pow2_pos(k);
    lemma_gamma_len_bounds(v);
    let g = gamma_len(v);
    if g < k {
        if g + 1 < k {
            vstd::arithmetic::power2::lemma_pow2_strictly_increases(g + 1, k);
        }
    } else if g > k {
        if k + 1 < g {
            vstd::arithmetic::power2::lemma_pow2_strictly_increases(k + 1, g);
        }
    }
}

/// The length of the gamma code of `v`.
pub fn gamma_bit_length(v: u32) -> (r: u32)
    ensures
        r == gamma_bits(v as nat).len(),
{
    proof {
        vstd::arithmetic::power2::lemma2_to64();
    }
    if v <= 1 {
        return 1;
    }
    if v <= 3 {
        proof { lemma_gamma_len_eq(v as nat, 1); }
        return 3;
    }
    if v <= 7 {
        proof { lemma_gamma_len_eq(v as nat, 2); }
        return 5;
    }
    if v <= 15 {
        proof { lemma_gamma_len_eq(v as nat, 3); }
        return 7;
    }
    if v <= 31 {
        proof { lemma_gamma_len_eq(v as nat, 4); }
        return 9;
    }
    if v <= 63 {
        proof { lemma_gamma_len_eq(v as nat, 5); }
        return 11;
    }
    if v <= 127 {
        proof { lemma_gamma_len_eq(v as nat, 6); }
        return 13;
    }
    if v <= 255 {
        proof { lemma_gamma_len_eq(v as nat, 7); }
        return 15;
    }
    if v <= 511 {
        proof { lemma_gamma_len_eq(v as nat, 8); }
        return 17;
    }
    let mut need: u32 = 1;
    let mut t = v / 2;
    while t > 0
        invariant
            v > 511,
            t <= v / 2,
            need <= 1 + 2 * (gamma_len(v as nat) - gamma_len(t as nat)) <= 65,
            t >= 1 ==> need + 2 * (gamma_len(t as nat) + 1) == 1 + 2 * gamma_len(v as nat),
            t == 0 ==> need == 1 + 2 * gamma_len(v as nat),
        decreases t,
    {
        proof {
            vstd::arithmetic::power2::lemma2_to64();
            lemma_gamma_len_le(v as nat, 31);
        }
        need = need + 2;
        t = t / 2;
    }
    need
}

/// The code number of a non-zero residual: `2e - 1` for positive `e`,
/// `-2e - 2` for negative `e`.
pub open spec fn golomb_m(e: int) -> int {
    if e >= 0 {
        2 * e - 1
    } else {
        -2 * e - 2
    }
}

/// Code numbers interleave the residuals by size: the non-zero residuals
/// `1, -1, 2, -2, 3, ...` get `1, 0, 3, 2, 5, ...`, so the number's half,
/// rounded down, is one less than the residual's size and its low bit tells
/// a positive residual from a negative one.
pub proof fn lemma_code_number(e: int)
    requires
        e != 0,
    ensures
        golomb_m(e) >= 0,
        golomb_m(e) / 2 == (if e > 0 { e } else { -e }) - 1,
        (golomb_m(e) % 2 == 1) == (e > 0),
{
}

/// The unary part of a code with quotient `z` that starts at bit `p`: `z`
/// zeros and a one; or, where the zeros would reach the fourth byte after
/// the byte of bit `p`, zeros up to that byte followed by `z` in eight bits.
pub open spec fn golomb_unary(z: nat, p: nat) -> Seq<bool> {
    let lim = (32 - p % 8) as nat;
    if z >= lim {
        zero_bits(lim) + bits_of(z, 8)
    } else {
        zero_bits(z) + seq![true]
    }
}

/// The code of the non-zero residual `e` at adaptation state `(a, n)`,
/// starting at bit `p`: the quotient of its code number by `2^k` in unary,
/// then the low `k` bits of the code number.
pub open spec fn golomb_value_bits(e: int, a: int, n: int, p: nat) -> Seq<bool> {
    let k = golomb_k(a, n) as nat;
    let m = golomb_m(e) as nat;
    golomb_unary(m / pow2(k), p) + bits_of(m, k)
}

/// The adaptation state after coding `e` at state `(a, n)`: half the code
/// number is added to the running sum, which is halved every fourth step.
pub open spec fn golomb_next(a: int, n: int, e: int) -> (int, int) {
    let a1 = a + golomb_m(e) / 2;
    if n == 0 {
        (a1 / 2, 3)
    } else {
        (a1, n - 1)
    }
}

/// The bounds the adaptation state keeps.
pub open spec fn golomb_state_ok(a: int, n: int) -> bool {
    0 <= n <= 3 && 0 <= a <= 508 + (3 - n) * 127
}

/// Number of elements after `i` in the same run (zero or non-zero) as `i`.
pub open spec fn run_extra(buf: Seq<i8>, i: int) -> nat
    decreases buf.len() - i,
{
    if 0 <= i && i + 1 < buf.len() && (buf[i + 1] != 0) == (buf[i] != 0) {
        1 + run_extra(buf, i + 1)
    } else {
        0
    }
}

/// Length of the run (of zeros or of non-zeros) that starts at `i`.
pub open spec fn run_len(buf: Seq<i8>, i: int) -> nat {
    1 + run_extra(buf, i)
}

/// A stretch of equal zero-ness from `s` on lies within the run at `s`.
pub proof fn lemma_run_covers(buf: Seq<i8>, s: int, i: int)
    requires
        0 <= s <= i < buf.len(),
        forall|t: int| s <= t <= i ==> (#[trigger] buf[t] != 0) == (buf[s] != 0),
    ensures
        run_len(buf, s) >= i - s + 1,
    decreases i - s,
{
    if s < i {
        assert((buf[s + 1] != 0) == (buf[s] != 0));
        lemma_run_covers(buf, s + 1, i);
    }
}

/// A run does not reach past the end of the buffer.
pub proof fn lemma_run_bound(buf: Seq<i8>, i: int)
    requires
        0 <= i < buf.len(),
    ensures
        i + run_len(buf, i) <= buf.len(),
    decreases buf.len() - i,
{
    if i + 1 < buf.len() && (buf[i + 1] != 0) == (buf[i] != 0) {
        lemma_run_bound(buf, i + 1);
    }
}

/// The codes of the non-zero residuals `buf[j..end]`, the first at state
/// `(a, n)` and bit `p`.
pub open spec fn nz_bits(buf: Seq<i8>, j: int, end: int, a: int, n: int, p: nat) -> Seq<bool>
    decreases end - j,
{
    if j >= end {
        Seq::empty()
    } else {
        let vb = golomb_value_bits(buf[j] as int, a, n, p);
        let (a2, n2) = golomb_next(a, n, buf[j] as int);
        vb + nz_bits(buf, j + 1, end, a2, n2, p + vb.len())
    }
}

/// The adaptation state after coding `buf[j..end]` from state `(a, n)`.
pub open spec fn nz_state(buf: Seq<i8>, j: int, end: int, a: int, n: int) -> (int, int)
    decreases end - j,
{
    if j >= end {
        (a, n)
    } else {
        let (a2, n2) = golomb_next(a, n, buf[j] as int);
        nz_state(buf, j + 1, end, a2, n2)
    }
}

/// The runs of `buf` from `i` on, at state `(a, n)` and bit `p`: each run's
/// length as a gamma code, followed, for a run of non-zero values, by their
/// codes.
pub open spec fn golomb_body(buf: Seq<i8>, i: int, a: int, n: int, p: nat) -> Seq<bool>
    decreases buf.len() - i,
{
    if i < 0 || i >= buf.len() {
        Seq::empty()
    } else {
        proof {
            lemma_run_bound(buf, i);
        }
        let r = run_len(buf, i);
        let g = gamma_bits(r);
        if buf[i] == 0 {
            g + golomb_body(buf, i + r, a, n, p + g.len())
        } else {
            let nb = nz_bits(buf, i, i + r, a, n, p + g.len());
            let (a2, n2) = nz_state(buf, i, i + r, a, n);
            g + nb + golomb_body(buf, i + r, a2, n2, p + g.len() + nb.len())
        }
    }
}

/// The Golomb coding of `buf` written from bit `p` on: whether it starts
/// with a non-zero value, then its runs from state `(0, 3)`.
pub open spec fn golomb_bits(buf: Seq<i8>, p: nat) -> Seq<bool> {
    seq![buf.len() > 0 && buf[0] != 0] + golomb_body(buf, 0, 0, 3, p + 1)
}

proof fn lemma_golomb_next_ok(a: int, n: int, e: int)
    requires
        golomb_state_ok(a, n),
        e != 0,
        -128 <= e < 128,
    ensures
        golomb_state_ok(golomb_next(a, n, e).0, golomb_next(a, n, e).1),
        0 <= golomb_m(e) <= 254,
{
}

/// A run ends where the zero-ness of the elements changes.
proof fn lemma_run_len(buf: Seq<i8>, s: int, e: int)
    requires
        0 <= s < e <= buf.len(),
        forall|t: int| s <= t < e ==> (#[trigger] buf[t] != 0) == (buf[s] != 0),
        e == buf.len() || (buf[e] != 0) != (buf[s] != 0),
    ensures
        run_len(buf, s) == e - s,
    decreases e - s,
{
    if s + 1 < e {
        assert((buf[s + 1] != 0) == (buf[s] != 0));
        lemma_run_len(buf, s + 1, e);
    }
}

/// The gamma code of a 32-bit value takes at most 63 bits.
pub proof fn lemma_gamma_bits_len(v: u32)
    ensures
        gamma_bits(v as nat).len() <= 63,
        gamma_bits(v as nat).len() == 2 * gamma_len(v as nat) + 1,
{
    vstd::arithmetic::power2::lemma2_to64();
    if v >= 1 {
        lemma_gamma_len_le(v as nat, 31);
    }
}

/// The zeros of a unary code reach the give-up byte exactly after `32 - p % 8`
/// of them.
proof fn lemma_give_up_byte(p: nat, j: nat)
    requires
        j <= 32 - p % 8,
    ensures
        ((p + j) / 8 == p / 8 + 4) == (j == 32 - p % 8),
{
    let q = p / 8;
    let r = p % 8;
    vstd::arithmetic::div_mod::lemma_fundamental_div_mod(p as int, 8);
    assert(p + j == 8 * q + (r + j));
    if r + j == 32 {
        assert((p + j) / 8 == q + 4);
    } else {
        assert(r + j < 32);
        assert((p + j) / 8 < q + 4);
    }
}

/// Appends the code of the non-zero residual `e` at adaptation state
/// `(a, n)`.
fn put_golomb_value(bs: &mut TLG6BitStream, e: i8, a: i32, n: i32)
    requires
        old(bs).wf(),
        e != 0,
        golomb_state_ok(a as int, n as int),
        old(bs)@.len() / 8 + 5 <= usize::MAX,
    ensures
        final(bs).wf(),
        final(bs)@ == old(bs)@ + golomb_value_bits(e as int, a as int, n as int, old(bs)@.len()),
        final(bs)@.len() <= old(bs)@.len() + 48,
{
    let ghost p = old(bs)@.len();
    let ee = e as i32;
    assert(-128 <= ee <= 127);
    let k = golomb_param(a, n);
    let m = (if ee >= 0 {
        2 * ee
    } else {
        -2 * ee - 1
    }) - 1;
    assert(m == golomb_m(e as int));
    let mu = m as u32;
    proof {
        vstd::bits::lemma_u32_shr_is_div(mu, k);
        vstd::arithmetic::power2::lemma_pow2_pos(k as nat);
    }
    let zeros = mu >> k;
    let store_limit = bs.byte_len() + GOLOMB_GIVE_UP_BYTES as usize;
    let ghost lim = (32 - p % 8) as nat;
    let mut j: u32 = 0;
    let mut gave_up = false;
    proof {
        assert(bs@ =~= old(bs)@ + zero_bits(0));
    }
    while j < zeros && !gave_up
        invariant
            bs.wf(),
            p == old(bs)@.len(),
            p / 8 + 5 <= usize::MAX,
            store_limit == p / 8 + 4,
            lim == 32 - p % 8,
            j <= zeros,
            zeros <= 254,
            j <= lim,
            !gave_up ==> bs@ == old(bs)@ + zero_bits(j as nat),
            gave_up ==> bs@ == old(bs)@ + zero_bits(lim) + bits_of(zeros as nat, 8) && zeros >= lim,
        decreases zeros - j + (if gave_up { 0int } else { 1int }),
    {
        proof {
            lemma_give_up_byte(p, j as nat);
            assert(bs@.len() == p + j);
        }
        if store_limit == bs.byte_len() {
            bs.put_value(zeros, 8);
            gave_up = true;
            proof {
                assert(j == lim);
            }
        } else {
            bs.put_1bit(false);
            proof {
                assert(bs@ =~= old(bs)@ + zero_bits((j + 1) as nat));
            }
            j = j + 1;
        }
    }
    if !gave_up {
        proof {
            lemma_give_up_byte(p, j as nat);
            assert(bs@.len() == p + j);
        }
        if store_limit == bs.byte_len() {
            bs.put_value(zeros, 8);
            gave_up = true;
            proof {
                assert(j == lim && zeros == j);
                assert(bs@ =~= old(bs)@ + (zero_bits(lim) + bits_of(zeros as nat, 8)));
            }
        } else {
            bs.put_1bit(true);
            proof {
                assert(zeros < lim);
                assert(bs@ =~= old(bs)@ + (zero_bits(zeros as nat) + seq![true]));
            }
        }
    } else {
        proof {
            assert(bs@ =~= old(bs)@ + (zero_bits(lim) + bits_of(zeros as nat, 8)));
        }
    }
    let ghost u = bs@.subrange(p as int, bs@.len() as int);
    proof {
        assert(u =~= golomb_unary(zeros as nat, p));
        assert(bs@ =~= old(bs)@ + u);
    }
    bs.put_value(mu, k);
    proof {
        assert(bs@ =~= old(bs)@ + golomb_value_bits(e as int, a as int, n as int, p));
    }
}

/// Appends the Golomb coding of `buf` (see `golomb_bits`).
#[verifier::spinoff_prover]
#[verifier::rlimit(50)]
pub fn compress_values_golomb(bs: &mut TLG6BitStream, buf: &[i8])
    requires
        old(bs).wf(),
        old(bs)@.len() + 128 * buf@.len() + 64 <= usize::MAX,
        forall|t: int| 0 <= t < buf@.len() ==> #[trigger] run_len(buf@, t) <= u32::MAX,
    ensures
        final(bs).wf(),
        final(bs)@ == old(bs)@ + golomb_bits(buf@, old(bs)@.len()),
        final(bs)@.len() <= old(bs)@.len() + 1 + 128 * buf@.len(),
{
    let ghost p0 = old(bs)@.len();
    let ghost target = old(bs)@ + golomb_bits(buf@, p0);
    let len = buf.len();
    let first = len > 0 && buf[0] != 0;
    bs.put_1bit(first);
    proof {
        assert(target =~= bs@ + golomb_body(buf@, 0, 0, 3, bs@.len()));
    }
    let mut n: i32 = 3;
    let mut a: i32 = 0;
    let mut count: u32 = 0;
    let mut i: usize = 0;
    let ghost mut s: int = 0;
    while i < len
        invariant
            bs.wf(),
            len == buf@.len(),
            p0 + 128 * len + 64 <= usize::MAX,
            forall|t: int| 0 <= t < buf@.len() ==> #[trigger] run_len(buf@, t) <= u32::MAX,
            0 <= s <= i <= len,
            count == i - s,
            forall|t: int| s <= t < i ==> #[trigger] buf@[t] == 0,
            s == 0 || buf@[s - 1] != 0,
            golomb_state_ok(a as int, n as int),
            target == bs@ + golomb_body(buf@, s, a as int, n as int, bs@.len()),
            bs@.len() <= p0 + 1 + 128 * s,
        decreases len - i,
    {
        if buf[i] != 0 {
            if count > 0 {
                let ghost b0 = bs@;
                proof {
                    lemma_run_len(buf@, s, i as int);
                    lemma_gamma_bits_len(count);
                }
                bs.put_gamma(count);
                proof {
                    assert(target =~= bs@ + golomb_body(buf@, i as int, a as int, n as int, bs@.len()));
                }
            }
            proof {
                s = i as int;
            }
            count = 0;
            let mut ii = i;
            while ii < len && buf[ii] != 0
                invariant
                    len == buf@.len(),
                    p0 + 128 * len + 64 <= usize::MAX,
                    forall|t: int| 0 <= t < buf@.len() ==> #[trigger] run_len(buf@, t) <= u32::MAX,
                    i < len,
                    buf@[i as int] != 0,
                    i <= ii <= len,
                    count == ii - i,
                    forall|t: int| i <= t < ii ==> #[trigger] buf@[t] != 0,
                decreases len - ii,
            {
                proof {
                    lemma_run_covers(buf@, i as int, ii as int);
                    assert(run_len(buf@, i as int) <= u32::MAX);
                }
                count = count + 1;
                ii = ii + 1;
            }
            proof {
                lemma_run_len(buf@, i as int, ii as int);
                lemma_gamma_bits_len(count);
            }
            let ghost st = nz_state(buf@, i as int, ii as int, a as int, n as int);
            bs.put_gamma(count);
            let ghost after_gamma = bs@.len();
            proof {
                assert(target =~= bs@ + nz_bits(buf@, i as int, ii as int, a as int, n as int, bs@.len())
                    + golomb_body(buf@, ii as int, st.0, st.1, bs@.len() + nz_bits(buf@, i as int, ii as int, a as int, n as int, bs@.len()).len()));
            }
            while i < ii
                invariant
                    bs.wf(),
                    len == buf@.len(),
                    i <= ii <= len,
                    forall|t: int| i <= t < ii ==> #[trigger] buf@[t] != 0,
                    golomb_state_ok(a as int, n as int),
                    st == nz_state(buf@, i as int, ii as int, a as int, n as int),
                    target == bs@ + nz_bits(buf@, i as int, ii as int, a as int, n as int, bs@.len())
                        + golomb_body(buf@, ii as int, st.0, st.1, bs@.len() + nz_bits(buf@, i as int, ii as int, a as int, n as int, bs@.len()).len()),
                    s <= i,
                    bs@.len() <= after_gamma + 48 * (i - s),
                    after_gamma <= p0 + 1 + 128 * s + 63,
                    p0 + 128 * len + 64 <= usize::MAX,
                decreases ii - i,
            {
                let e = buf[i];
                proof {
                    lemma_golomb_next_ok(a as int, n as int, e as int);
                }
                let ghost b0 = bs@;
                assert(bs@.len() / 8 + 5 <= usize::MAX);
                put_golomb_value(bs, e, a, n);
                let ghost nx = golomb_next(a as int, n as int, e as int);
                let ee = e as i32;
                let m = (if ee >= 0 {
                    2 * ee
                } else {
                    -2 * ee - 1
                }) - 1;
                a = a + m / 2;
                n = n - 1;
                if n < 0 {
                    a = a / 2;
                    n = (GOLOMB_N_COUNT - 1) as i32;
                }
                proof {
                    assert(nx == (a as int, n as int));
                    assert(b0 + nz_bits(buf@, i as int, ii as int, nx.0 - (a - a), nx.1 - (n - n), b0.len()) == b0 + nz_bits(buf@, i as int, ii as int, nx.0, nx.1, b0.len()));
                }
                i = i + 1;
                proof {
                    assert(target =~= bs@ + nz_bits(buf@, i as int, ii as int, a as int, n as int, bs@.len())
                        + golomb_body(buf@, ii as int, st.0, st.1, bs@.len() + nz_bits(buf@, i as int, ii as int, a as int, n as int, bs@.len()).len()));
                }
            }
            proof {
                s = ii as int;
            }
            count = 0;
        } else {
            proof {
                lemma_run_covers(buf@, s, i as int);
                assert(run_len(buf@, s) <= u32::MAX);
            }
            count = count + 1;
            i = i + 1;
        }
    }
    if count > 0 {
        proof {
            lemma_run_len(buf@, s, len as int);
            lemma_gamma_bits_len(count);
            assert(golomb_body(buf@, len as int, a as int, n as int, (bs@.len() + gamma_bits(count as nat).len()) as nat) =~= Seq::<bool>::empty());
        }
        bs.put_gamma(count);
    }
    proof {
        assert(golomb_body(buf@, len as int, a as int, n as int, bs@.len()) =~= Seq::<bool>::empty());
        assert(target =~= bs@);
    }
}

/// The input holds `bits` from bit `p` on.
pub open spec fn holds_bits(input: Seq<u8>, p: int, bits: Seq<bool>) -> bool {
    &&& 0 <= p
    &&& p + bits.len() <= 8 * input.len()
    &&& forall|i: int| 0 <= i < bits.len() ==> #[trigger] reader_bit(input, p + i) == bits[i]
}

/// Holding a concatenation is holding both parts, one after the other.
pub proof fn lemma_holds_split(input: Seq<u8>, p: int, a: Seq<bool>, b: Seq<bool>)
    requires
        holds_bits(input, p, a + b),
    ensures
        holds_bits(input, p, a),
        holds_bits(input, p + a.len(), b),
{
    assert forall|i: int| 0 <= i < a.len() implies #[trigger] reader_bit(input, p + i) == a[i] by {
        assert((a + b)[i] == a[i]);
    }
    assert forall|i: int| 0 <= i < b.len() implies #[trigger] reader_bit(input, p + a.len() + i) == b[i] by {
        assert((a + b)[a.len() + i] == b[i]);
        assert(reader_bit(input, p + (a.len() + i)) == (a + b)[a.len() + i]);
    }
}

/// The state after a residual read back: the running sum grows by half
/// its code number; a zero (never written) leaves it as it is.
fn golomb_advance(a: i32, n: i32, e: i8) -> (r: (i32, i32))
    requires
        golomb_state_ok(a as int, n as int),
    ensures
        golomb_state_ok(r.0 as int, r.1 as int),
        e != 0 ==> (r.0 as int, r.1 as int) == golomb_next(a as int, n as int, e as int),
        e == 0 ==> (r.0 as int, r.1 as int) == golomb_next(a as int, n as int, 1),
{
    let ee = e as i32;
    assert(-128 <= ee <= 127);
    let m = if ee > 0 {
        2 * ee - 1
    } else if ee < 0 {
        (0 - ee) * 2 - 2
    } else {
        1
    };
    let mut a2 = a + m / 2;
    let mut n2 = n - 1;
    if n2 < 0 {
        a2 = a2 / 2;
        n2 = (GOLOMB_N_COUNT - 1) as i32;
    }
    (a2, n2)
}

/// What the unary part of a residual's code reads as from bit `p`, `z` zero
/// bits having been read, and where it leaves the reader.  Reaching byte
/// `limit` gives the eight bits stored there; an exhausted input ends the
/// count; so does a one bit, or a 64th zero bit.
pub open spec fn unary_read(input: Seq<u8>, p: int, z: nat, limit: i64) -> (nat, int)
    decreases 64 - z,
{
    if ((p / 8) as i32) as i64 == limit {
        read_value(input, p, 8)
    } else if p >= 8 * input.len() {
        (z, p)
    } else if reader_bit(input, p) {
        (z, p + 1)
    } else if z + 1 >= 64 {
        ((z + 1) as nat, p + 1)
    } else {
        unary_read(input, p + 1, (z + 1) as nat, limit)
    }
}

/// The residual whose code number is `m`: odd numbers are the positive
/// residuals, even ones the negative, taken as a byte.
pub open spec fn residual_of(m: int) -> i8 {
    (if m % 2 == 1 {
        (m + 1) / 2
    } else {
        -(m / 2) - 1
    }) as i8
}

/// What reading one residual's code at bit `q` and state `(a, n)` gives,
/// and where it leaves the reader: the unary quotient, then `k` low bits.
pub open spec fn value_read(input: Seq<u8>, q: int, a: int, n: int) -> (i8, int) {
    let k = golomb_k(a, n) as nat;
    let limit = (((q / 8) as i32) as i64 + 4) as i64;
    let (z, p1) = unary_read(input, q, 0, limit);
    let (low, p2) = read_value(input, p1, k);
    (residual_of((z * pow2(k) + low) as int), p2)
}

/// The adaptation state after reading `e`; a zero counts as code number 1.
pub open spec fn state_after(a: int, n: int, e: i8) -> (int, int) {
    golomb_next(a, n, if e == 0 { 1 } else { e as int })
}

/// What reading `cnt` residual codes from bit `p` at state `(a, n)` gives:
/// the residuals, the position after them and the state after them.
pub open spec fn values_read(input: Seq<u8>, p: int, cnt: nat, a: int, n: int) -> (Seq<i8>, int, int, int)
    decreases cnt,
{
    if cnt == 0 {
        (Seq::empty(), p, a, n)
    } else {
        let (e, p1) = value_read(input, p, a, n);
        let (a1, n1) = state_after(a, n, e);
        let r = values_read(input, p1, (cnt - 1) as nat, a1, n1);
        (seq![e] + r.0, r.1, r.2, r.3)
    }
}

/// What reading the runs for the `left` residuals still owed gives, from
/// bit `p`, the next run being of non-zero residuals where `nonzero` holds.
pub open spec fn runs_read(input: Seq<u8>, p: int, left: nat, nonzero: bool, a: int, n: int) -> Seq<i8>
    decreases left,
{
    if left == 0 {
        Seq::empty()
    } else {
        let (r, p1) = gamma_read(input, p, 0);
        proof {
            lemma_gamma_read_pos(input, p, 0);
        }
        let take: nat = if r < left { r } else { left };
        if nonzero {
            let v = values_read(input, p1, take, a, n);
            v.0 + runs_read(input, v.1, (left - take) as nat, false, v.2, v.3)
        } else {
            Seq::new(take, |i: int| 0i8) + runs_read(input, p1, (left - take) as nat, true, a, n)
        }
    }
}

/// What `decode_golomb_channel` reads for `count` residuals from bit `p`:
/// a flag for whether the first run is of non-zero residuals, then the runs.
pub open spec fn channel_read(input: Seq<u8>, p: int, count: nat) -> Seq<i8> {
    if p >= 8 * input.len() {
        runs_read(input, p, count, false, 0, 3)
    } else {
        runs_read(input, p + 1, count, reader_bit(input, p), 0, 3)
    }
}

/// Reads the code of one residual at adaptation state `(a, n)`.  Where the
/// input holds the code of a non-zero `e0` (see `golomb_value_bits`), the
/// result is `e0` and the reader moves past the code.
fn read_golomb_value(br: &mut TLG6BitReader, a: i32, n: i32) -> (e: i8)
    requires
        old(br).wf(),
        golomb_state_ok(a as int, n as int),
        old(br).input().len() + 8 <= i32::MAX,
    ensures
        final(br).wf(),
        final(br).input() == old(br).input(),
        (e, final(br).pos()) == value_read(old(br).input(), old(br).pos(), a as int, n as int),
        forall|e0: int|
            e0 != 0 && -128 <= e0 < 128 && #[trigger] holds_bits(
                old(br).input(),
                old(br).pos(),
                golomb_value_bits(e0, a as int, n as int, old(br).pos() as nat),
            ) ==> e as int == e0 && final(br).pos() == old(br).pos() + golomb_value_bits(
                e0,
                a as int,
                n as int,
                old(br).pos() as nat,
            ).len(),
{
    let ghost input = br.input();
    let ghost q = br.pos();
    let k = golomb_param(a, n);
    let limit: i64 = br.get_byte_pos() as i64 + 4;
    let mut z: u32 = 0;
    let mut done = false;
    proof {
        vstd::arithmetic::power2::lemma_pow2_pos(k as nat);
    }
    while !done
        invariant
            br.wf(),
            br.input() == input,
            input == old(br).input(),
            q == old(br).pos(),
            input.len() + 8 <= i32::MAX,
            k == golomb_k(a as int, n as int),
            k <= 8,
            limit == (q / 8) as i32 as i64 + 4,
            z <= 255,
            !done ==> z < 64,
            unary_read(input, q, 0, limit) == (if done {
                (z as nat, br.pos())
            } else {
                unary_read(input, br.pos(), z as nat, limit)
            }),
            forall|e0: int|
                e0 != 0 && -128 <= e0 < 128 && #[trigger] holds_bits(input, q, golomb_value_bits(e0, a as int, n as int, q as nat))
                    ==> ({
                    let zz = golomb_m(e0) as nat / pow2(k as nat);
                    let lim = 32 - q % 8;
                    &&& !done ==> z <= zz && z <= lim && br.pos() == q + z
                    &&& done ==> z == zz && br.pos() == q + golomb_unary(zz, q as nat).len()
                }),
        decreases (if done { 0int } else { 65 - z }),
    {
        let ghost pz = br.pos();
        let ghost z0 = z;
        if br.get_byte_pos() as i64 == limit {
            z = br.get_value(8);
            done = true;
            proof {
                vstd::arithmetic::power2::lemma2_to64();
                if pz < 8 * input.len() {
                    let w = if 8 < 32 - pz % 8 { 8nat } else { (32 - pz % 8) as nat };
                    super::bitstream::lemma_bits_value_bound(Seq::new(w, |i: int| reader_bit(input, pz + i)));
                    if w < 8 {
                        vstd::arithmetic::power2::lemma_pow2_strictly_increases(w, 8);
                    }
                }
            }
        } else if br.exhausted() {
            done = true;
        } else if br.get_1bit() {
            done = true;
        } else {
            z = z + 1;
            if z >= 64 {
                done = true;
            }
        }
        proof {
            assert forall|e0: int|
                e0 != 0 && -128 <= e0 < 128 && #[trigger] holds_bits(input, q, golomb_value_bits(e0, a as int, n as int, q as nat))
                    implies ({
                    let zz = golomb_m(e0) as nat / pow2(k as nat);
                    let lim = 32 - q % 8;
                    &&& !done ==> z <= zz && z <= lim && br.pos() == q + z
                    &&& done ==> z == zz && br.pos() == q + golomb_unary(zz, q as nat).len()
                }) by {
                let m = golomb_m(e0) as nat;
                let zz = m / pow2(k as nat);
                let lim = (32 - q % 8) as nat;
                let vb = golomb_value_bits(e0, a as int, n as int, q as nat);
                let un = golomb_unary(zz, q as nat);
                lemma_holds_split(input, q, un, bits_of(m, k as nat));
                vstd::arithmetic::power2::lemma_pow2_pos(k as nat);
                assert(zz <= 254) by {
                    vstd::arithmetic::div_mod::lemma_div_is_ordered_by_denominator(m as int, 1, pow2(k as nat) as int);
                }
                lemma_give_up_byte(q as nat, z0 as nat);
                assert(pz == q + z0);
                assert((pz / 8) as i32 == pz / 8);
                assert((q / 8) as i32 == q / 8);
                if z0 == lim {
                    assert(zz >= lim);
                    assert(un == zero_bits(lim) + bits_of(zz, 8));
                    lemma_holds_split(input, q, zero_bits(lim), bits_of(zz, 8));
                    assert forall|i: int| 0 <= i < 8 implies #[trigger] reader_bit(input, pz + i) == bits_of(zz, 8)[i] by {
                        assert(reader_bit(input, q + lim + i) == bits_of(zz, 8)[i]);
                    }
                    lemma_value_roundtrip(input, pz, zz, 8);
                    vstd::arithmetic::power2::lemma2_to64();
                } else {
                    assert(z0 < lim);
                    assert(pz < 8 * input.len());
                    if z0 < zz {
                        assert(un[z0 as int] == false);
                        assert(reader_bit(input, q + z0) == un[z0 as int]);
                    } else {
                        assert(z0 == zz);
                        assert(un =~= zero_bits(zz) + seq![true]);
                        assert(un[z0 as int] == true);
                        assert(reader_bit(input, q + z0) == un[z0 as int]);
                    }
                }
            }
        }
    }
    proof {
        vstd::arithmetic::power2::lemma2_to64();
        if k < 8 {
            vstd::arithmetic::power2::lemma_pow2_strictly_increases(k as nat, 8);
        }
        vstd::bits::lemma_u32_shl_is_mul(1, k);
    }
    let ghost pl = br.pos();
    let low = br.get_value(k);
    proof {
        if k > 0 && pl < 8 * input.len() {
            let w = if k < 32 - pl % 8 { k as nat } else { (32 - pl % 8) as nat };
            super::bitstream::lemma_bits_value_bound(Seq::new(w, |i: int| reader_bit(input, pl + i)));
            if w < k {
                vstd::arithmetic::power2::lemma_pow2_strictly_increases(w, k as nat);
            }
        }
    }
    proof {
        assert(low < pow2(k as nat)) by {
            if k == 0 || pl >= 8 * input.len() {
                vstd::arithmetic::power2::lemma_pow2_pos(k as nat);
            }
        }
        assert(z * pow2(k as nat) <= 255 * 256) by (nonlinear_arith)
            requires
                z <= 255,
                pow2(k as nat) <= 256,
        ;
    }
    let m: u32 = z * (1u32 << k) + low;
    let e32: i32 = if m % 2 == 1 {
        ((m + 1) / 2) as i32
    } else {
        -((m / 2) as i32) - 1
    };
    let e = e32 as i8;
    assert(e == residual_of(m as int));
    proof {
        assert forall|e0: int|
            e0 != 0 && -128 <= e0 < 128 && #[trigger] holds_bits(
                input,
                q,
                golomb_value_bits(e0, a as int, n as int, q as nat),
            ) implies e as int == e0 && br.pos() == q + golomb_value_bits(e0, a as int, n as int, q as nat).len() by {
            let mm = golomb_m(e0) as nat;
            let zz = mm / pow2(k as nat);
            let un = golomb_unary(zz, q as nat);
            lemma_holds_split(input, q, un, bits_of(mm, k as nat));
            assert(pl == q + un.len());
            if k > 0 {
                assert forall|i: int| 0 <= i < k implies #[trigger] reader_bit(input, pl + i) == bits_of(mm, k as nat)[i] by {
                    assert(reader_bit(input, q + un.len() + i) == bits_of(mm, k as nat)[i]);
                }
                lemma_value_roundtrip(input, pl, mm, k as nat);
            } else {
                assert(mm % 1 == 0);
            }
            assert(low == mm % pow2(k as nat));
            vstd::arithmetic::div_mod::lemma_fundamental_div_mod(mm as int, pow2(k as nat) as int);
            assert(m == mm) by (nonlinear_arith)
                requires
                    m == z * pow2(k as nat) + low,
                    z == zz,
                    low == mm % pow2(k as nat),
                    mm == pow2(k as nat) * (mm / pow2(k as nat)) + mm % pow2(k as nat),
                    zz == mm / pow2(k as nat),
            ;
        }
    }
    e
}

/// All elements of a run share the zero-ness of its first.
proof fn lemma_run_same(buf: Seq<i8>, i: int)
    requires
        0 <= i < buf.len(),
    ensures
        forall|t: int| i <= t < i + run_len(buf, i) ==> (#[trigger] buf[t] != 0) == (buf[i] != 0),
    decreases buf.len() - i,
{
    if i + 1 < buf.len() && (buf[i + 1] != 0) == (buf[i] != 0) {
        lemma_run_same(buf, i + 1);
    }
}

/// The element after a run differs in zero-ness from the run.
proof fn lemma_run_end(buf: Seq<i8>, i: int)
    requires
        0 <= i < buf.len(),
        i + run_len(buf, i) < buf.len(),
    ensures
        (buf[i + run_len(buf, i)] != 0) != (buf[i] != 0),
    decreases buf.len() - i,
{
    if i + 1 < buf.len() && (buf[i + 1] != 0) == (buf[i] != 0) {
        lemma_run_end(buf, i + 1);
    }
}

/// A gamma code never reads as zero.
pub proof fn lemma_gamma_read_pos(input: Seq<u8>, p: int, cnt: nat)
    ensures
        gamma_read(input, p, cnt).0 >= 1,
    decreases 32 - cnt,
{
    vstd::arithmetic::power2::lemma_pow2_pos(cnt);
    if p < 8 * input.len() && !reader_bit(input, p) && !(cnt + 1 >= 32 || p + 1 >= 8 * input.len()) {
        lemma_gamma_read_pos(input, p + 1, cnt + 1);
    }
}

/// Every run of zero or of non-zero residuals in `vals` is shorter than
/// `2^26`, so that the reader's 32-bit window takes in each run's gamma code
/// wherever it starts.
pub open spec fn runs_short(vals: Seq<i8>) -> bool {
    forall|t: int| 0 <= t < vals.len() ==> #[trigger] run_len(vals, t) < 0x4000000
}

/// The input, from bit `p` on, holds the Golomb coding of the `count`
/// residuals `vals`, whose runs are short (`runs_short`).
pub open spec fn holds_golomb(input: Seq<u8>, p: int, vals: Seq<i8>, count: nat) -> bool {
    &&& vals.len() == count
    &&& runs_short(vals)
    &&& holds_bits(input, p, golomb_bits(vals, p as nat))
}

/// Reads `count` residuals coded as `compress_values_golomb` writes them:
/// the result is what `channel_read` gives.  Where the input holds the
/// coding of `count` residuals `vals` from the reader's position on (see
/// `holds_golomb`), the result is `vals`.
pub fn decode_golomb_channel(br: &mut TLG6BitReader, count: usize) -> (r: Vec<i8>)
    requires
        old(br).wf(),
        old(br).input().len() + 8 <= i32::MAX,
    ensures
        final(br).wf(),
        final(br).input() == old(br).input(),
        r@.len() == count,
        r@ == channel_read(old(br).input(), old(br).pos(), count as nat),
        forall|vals: Seq<i8>| #[trigger] holds_golomb(old(br).input(), old(br).pos(), vals, count as nat) ==> r@ == vals,
{
    let ghost input = br.input();
    let ghost p0 = br.pos();
    let mut nonzero = br.get_1bit();
    let mut a: i32 = 0;
    let mut n: i32 = 3;
    let mut out: Vec<i8> = Vec::new();
    proof {
        assert forall|vals: Seq<i8>| #[trigger] holds_golomb(input, p0, vals, count as nat) implies
            out@ == vals.take(out@.len() as int)
            && (out@.len() < count ==> nonzero == (vals[out@.len() as int] != 0))
            && holds_bits(input, br.pos(), golomb_body(vals, out@.len() as int, a as int, n as int, br.pos() as nat)) by {
            let fl = seq![vals.len() > 0 && vals[0] != 0];
            lemma_holds_split(input, p0, fl, golomb_body(vals, 0, 0, 3, (p0 + 1) as nat));
            assert(reader_bit(input, p0 + 0) == fl[0]);
            assert(out@ =~= vals.take(0));
        }
    }
    while out.len() < count
        invariant
            br.wf(),
            br.input() == input,
            input == old(br).input(),
            p0 == old(br).pos(),
            input.len() + 8 <= i32::MAX,
            out@.len() <= count,
            golomb_state_ok(a as int, n as int),
            out@ + runs_read(input, br.pos(), (count - out@.len()) as nat, nonzero, a as int, n as int) == channel_read(
                input,
                p0,
                count as nat,
            ),
            forall|vals: Seq<i8>| #[trigger] holds_golomb(input, p0, vals, count as nat) ==>
                out@ == vals.take(out@.len() as int)
                && (out@.len() < count ==> nonzero == (vals[out@.len() as int] != 0))
                && holds_bits(input, br.pos(), golomb_body(vals, out@.len() as int, a as int, n as int, br.pos() as nat)),
        decreases count - out@.len(),
    {
        let ghost pg = br.pos();
        let ghost i0 = out@.len() as int;
        let ghost ostart = out@;
        let ghost a0 = a as int;
        let ghost n0 = n as int;
        let r = br.get_gamma();
        proof {
            lemma_gamma_read_pos(input, pg, 0);
        }
        let rem = count - out.len();
        let take: usize = if (r as usize) < rem {
            r as usize
        } else {
            rem
        };
        let ghost pr = br.pos();
        proof {
            lemma_gamma_read_pos(input, pg, 0);
            let left = (count - i0) as nat;
            assert(runs_read(input, pg, left, nonzero, a0, n0) == if nonzero {
                let v = values_read(input, pr, take as nat, a0, n0);
                v.0 + runs_read(input, v.1, (left - take) as nat, false, v.2, v.3)
            } else {
                Seq::new(take as nat, |i: int| 0i8) + runs_read(input, pr, (left - take) as nat, true, a0, n0)
            });
        }
        proof {
            assert forall|vals: Seq<i8>| #[trigger] holds_golomb(input, p0, vals, count as nat) implies
                take == run_len(vals, i0)
                && pr == pg + gamma_bits(run_len(vals, i0)).len() by {
                lemma_run_bound(vals, i0);
                let rl = run_len(vals, i0);
                let g = gamma_bits(rl);
                let rest = if vals[i0] == 0 {
                    golomb_body(vals, i0 + rl, a as int, n as int, (pg + g.len()) as nat)
                } else {
                    nz_bits(vals, i0, i0 + rl, a as int, n as int, (pg + g.len()) as nat) + golomb_body(
                        vals,
                        i0 + rl,
                        nz_state(vals, i0, i0 + rl, a as int, n as int).0,
                        nz_state(vals, i0, i0 + rl, a as int, n as int).1,
                        (pg + g.len() + nz_bits(vals, i0, i0 + rl, a as int, n as int, (pg + g.len()) as nat).len()) as nat,
                    )
                };
                assert(golomb_body(vals, i0, a as int, n as int, pg as nat) =~= g + rest);
                lemma_holds_split(input, pg, g, rest);
                lemma_gamma_roundtrip(input, pg, rl);
            }
        }
        if nonzero {
            let mut j: usize = 0;
            proof {
                assert forall|vals: Seq<i8>| #[trigger] holds_golomb(input, p0, vals, count as nat) implies ({
                    let end = i0 + run_len(vals, i0);
                    let nb = nz_bits(vals, out@.len() as int, end, a as int, n as int, br.pos() as nat);
                    let st = nz_state(vals, out@.len() as int, end, a as int, n as int);
                    &&& take == run_len(vals, i0)
                    &&& vals[i0] != 0
                    &&& out@ == vals.take(out@.len() as int)
                    &&& holds_bits(input, br.pos(), nb)
                    &&& holds_bits(input, br.pos() + nb.len(), golomb_body(vals, end, st.0, st.1, (br.pos() + nb.len()) as nat))
                }) by {
                    lemma_run_bound(vals, i0);
                    let rl = run_len(vals, i0);
                    let end = i0 + rl;
                    let g = gamma_bits(rl);
                    let nb = nz_bits(vals, i0, end, a as int, n as int, (pg + g.len()) as nat);
                    let st = nz_state(vals, i0, end, a as int, n as int);
                    let bd = golomb_body(vals, end, st.0, st.1, (pg + g.len() + nb.len()) as nat);
                    assert(golomb_body(vals, i0, a as int, n as int, pg as nat) =~= g + (nb + bd));
                    lemma_holds_split(input, pg, g, nb + bd);
                    lemma_holds_split(input, pg + g.len(), nb, bd);
                }
            }
            while j < take
                invariant
                    br.wf(),
                    br.input() == input,
                    input == old(br).input(),
                    p0 == old(br).pos(),
                    input.len() + 8 <= i32::MAX,
                    j <= take,
                    take <= count - i0,
                    out@.len() == i0 + j,
                    golomb_state_ok(a as int, n as int),
                    ({
                        let v0 = values_read(input, pr, take as nat, a0, n0);
                        let v = values_read(input, br.pos(), (take - j) as nat, a as int, n as int);
                        &&& ostart + v0.0 == out@ + v.0
                        &&& v0.1 == v.1 && v0.2 == v.2 && v0.3 == v.3
                    }),
                    forall|vals: Seq<i8>| #[trigger] holds_golomb(input, p0, vals, count as nat) ==> ({
                        let end = i0 + run_len(vals, i0);
                        let nb = nz_bits(vals, out@.len() as int, end, a as int, n as int, br.pos() as nat);
                        let st = nz_state(vals, out@.len() as int, end, a as int, n as int);
                        &&& take == run_len(vals, i0)
                        &&& vals[i0] != 0
                        &&& out@ == vals.take(out@.len() as int)
                        &&& holds_bits(input, br.pos(), nb)
                        &&& holds_bits(input, br.pos() + nb.len(), golomb_body(vals, end, st.0, st.1, (br.pos() + nb.len()) as nat))
                    }),
                decreases take - j,
            {
                let ghost pv = br.pos();
                let ghost o0 = out@;
                let ghost a0 = a;
                let ghost n0 = n;
                proof {
                    let v = values_read(input, pv, (take - j) as nat, a as int, n as int);
                    let (e1, p1) = value_read(input, pv, a as int, n as int);
                    let (a1, n1) = state_after(a as int, n as int, e1);
                    let v1 = values_read(input, p1, (take - j - 1) as nat, a1, n1);
                    assert(v.0 == seq![e1] + v1.0);
                }
                let e = read_golomb_value(br, a, n);
                out.push(e);
                let (a2, n2) = golomb_advance(a, n, e);
                a = a2;
                n = n2;
                j = j + 1;
                proof {
                    let v1 = values_read(input, br.pos(), (take - j) as nat, a as int, n as int);
                    assert(o0 + (seq![e] + v1.0) =~= out@ + v1.0);
                    assert forall|vals: Seq<i8>| #[trigger] holds_golomb(input, p0, vals, count as nat) implies ({
                        let end = i0 + run_len(vals, i0);
                        let nb = nz_bits(vals, out@.len() as int, end, a as int, n as int, br.pos() as nat);
                        let st = nz_state(vals, out@.len() as int, end, a as int, n as int);
                        &&& take == run_len(vals, i0)
                        &&& vals[i0] != 0
                        &&& out@ == vals.take(out@.len() as int)
                        &&& holds_bits(input, br.pos(), nb)
                        &&& holds_bits(input, br.pos() + nb.len(), golomb_body(vals, end, st.0, st.1, (br.pos() + nb.len()) as nat))
                    }) by {
                        let end = i0 + run_len(vals, i0);
                        let jj = o0.len() as int;
                        lemma_run_bound(vals, i0);
                        lemma_run_same(vals, i0);
                        assert(vals[jj] != 0);
                        let vb = golomb_value_bits(vals[jj] as int, a0 as int, n0 as int, pv as nat);
                        let nx = golomb_next(a0 as int, n0 as int, vals[jj] as int);
                        let nb0 = nz_bits(vals, jj, end, a0 as int, n0 as int, pv as nat);
                        let nb1 = nz_bits(vals, jj + 1, end, nx.0, nx.1, (pv + vb.len()) as nat);
                        assert(nb0 =~= vb + nb1);
                        lemma_holds_split(input, pv, vb, nb1);
                        assert(holds_bits(input, pv, vb));
                        assert(e as int == vals[jj] as int);
                        assert(br.pos() == pv + vb.len());
                        assert((a as int, n as int) == nx);
                        assert(nz_state(vals, jj, end, a0 as int, n0 as int) == nz_state(vals, jj + 1, end, nx.0, nx.1));
                        assert(out@ =~= vals.take(out@.len() as int));
                    }
                }
            }
            proof {
                let v0 = values_read(input, pr, take as nat, a0, n0);
                let rest = runs_read(input, v0.1, (count - i0 - take) as nat, false, v0.2, v0.3);
                assert(ostart + (v0.0 + rest) =~= out@ + rest);
                assert forall|vals: Seq<i8>| #[trigger] holds_golomb(input, p0, vals, count as nat) implies
                    out@ == vals.take(out@.len() as int)
                    && (out@.len() < count ==> !nonzero == (vals[out@.len() as int] != 0))
                    && holds_bits(input, br.pos(), golomb_body(vals, out@.len() as int, a as int, n as int, br.pos() as nat)) by {
                    let end = i0 + run_len(vals, i0);
                    assert(nz_bits(vals, end, end, a as int, n as int, br.pos() as nat) =~= Seq::<bool>::empty());
                    if out@.len() < count {
                        lemma_run_end(vals, i0);
                    }
                }
            }
        } else {
            let mut j: usize = 0;
            while j < take
                invariant
                    br.wf(),
                    br.input() == input,
                    br.pos() == pr,
                    j <= take,
                    take <= count - i0,
                    out@.len() == i0 + j,
                    out@ == ostart + Seq::new(j as nat, |i: int| 0i8),
                    forall|vals: Seq<i8>| #[trigger] holds_golomb(input, p0, vals, count as nat) ==>
                        take == run_len(vals, i0) && vals[i0] == 0 && out@ == vals.take(out@.len() as int),
                decreases take - j,
            {
                out.push(0);
                j = j + 1;
                assert(out@ =~= ostart + Seq::new(j as nat, |i: int| 0i8));
                proof {
                    assert forall|vals: Seq<i8>| #[trigger] holds_golomb(input, p0, vals, count as nat) implies
                        take == run_len(vals, i0) && vals[i0] == 0 && out@ == vals.take(out@.len() as int) by {
                        lemma_run_bound(vals, i0);
                        lemma_run_same(vals, i0);
                        assert(vals[i0 + j - 1] == 0);
                        assert(out@ =~= vals.take(out@.len() as int));
                    }
                }
            }
            proof {
                let rest = runs_read(input, pr, (count - i0 - take) as nat, true, a0, n0);
                assert(ostart + (Seq::new(take as nat, |i: int| 0i8) + rest) =~= out@ + rest);
                assert forall|vals: Seq<i8>| #[trigger] holds_golomb(input, p0, vals, count as nat) implies
                    out@ == vals.take(out@.len() as int)
                    && (out@.len() < count ==> !nonzero == (vals[out@.len() as int] != 0))
                    && holds_bits(input, br.pos(), golomb_body(vals, out@.len() as int, a as int, n as int, br.pos() as nat)) by {
                    lemma_run_bound(vals, i0);
                    let rl = run_len(vals, i0);
                    let g = gamma_bits(rl);
                    assert(golomb_body(vals, i0, a as int, n as int, pg as nat) =~= g + golomb_body(vals, i0 + rl, a as int, n as int, (pg + g.len()) as nat));
                    lemma_holds_split(input, pg, g, golomb_body(vals, i0 + rl, a as int, n as int, (pg + g.len()) as nat));
                    if out@.len() < count {
                        lemma_run_end(vals, i0);
                    }
                }
            }
        }
        nonzero = !nonzero;
    }
    proof {
        assert forall|vals: Seq<i8>| #[trigger] holds_golomb(input, p0, vals, count as nat) implies out@ == vals by {
            assert(out@ =~= vals);
        }
    }
    out
}

/// The bytes that `take_data` hands out after the Golomb coding of `vals`
/// was written into an empty stream hold that coding for the decoder:
/// `decode_golomb_channel` on them gives `vals` back.
pub proof fn lemma_golomb_roundtrip(vals: Seq<i8>, bytes: Seq<u8>)
    requires
        runs_short(vals),
        bytes.len() == (golomb_bits(vals, 0).len() + 7) / 8,
        forall|p: int| 0 <= p < golomb_bits(vals, 0).len() ==> #[trigger] super::bitstream::stream_bit(bytes, p) == golomb_bits(vals, 0)[p],
    ensures
        holds_golomb(bytes, 0, vals, vals.len()),
{
    let gb = golomb_bits(vals, 0);
    assert forall|i: int| 0 <= i < gb.len() implies #[trigger] reader_bit(bytes, 0 + i) == gb[i] by {
        assert(super::bitstream::stream_bit(bytes, i) == gb[i]);
    }
}

/// The state of a size estimate: bits counted so far, length of the current
/// run, adaptation step and running sum, and whether the run is non-zero.
pub type TryState = (int, int, int, int, bool);

/// The estimate after one more residual.  A run's length is counted as its
/// gamma code when the run ends; a non-zero residual counts its unary part
/// (a long one as 36 bits), a stop bit and its `k` low bits.
pub open spec fn try_step(st: TryState, e: int) -> TryState {
    let (total, count, n, a, last) = st;
    if e != 0 {
        let total1 = if !last && count > 0 {
            total + gamma_bits(count as nat).len()
        } else {
            total
        };
        let count1 = (if !last {
            0
        } else {
            count
        }) + 1;
        let k = golomb_k(a, n);
        let ub = golomb_m(e) / pow2(k as nat) as int;
        let ub2 = if ub >= 28 {
            36
        } else {
            ub
        };
        let (a2, n2) = golomb_next(a, n, e);
        (total1 + ub2 + 1 + k, count1, n2, a2, true)
    } else {
        let (total1, count1) = if last && count > 0 {
            (total + gamma_bits(count as nat).len(), 0)
        } else {
            (total, count)
        };
        (total1, count1 + 1, n, a, false)
    }
}

/// The estimate after the residuals `buf`, in order.
pub open spec fn try_run(st: TryState, buf: Seq<i8>) -> TryState
    decreases buf.len(),
{
    if buf.len() == 0 {
        st
    } else {
        try_step(try_run(st, buf.drop_last()), buf.last() as int)
    }
}

/// The pending run is counted once: flushing again changes nothing.
pub proof fn lemma_flush_twice(st: TryState)
    ensures
        try_flush(try_flush(st)) == try_flush(st),
{
}

/// Counting residuals in two pieces counts as counting them at once: the
/// estimate after `a` and then `b` is the estimate after `a + b`.
pub proof fn lemma_try_run_split(st: TryState, a: Seq<i8>, b: Seq<i8>)
    ensures
        try_run(try_run(st, a), b) == try_run(st, a + b),
    decreases b.len(),
{
    if b.len() == 0 {
        assert(a + b =~= a);
    } else {
        lemma_try_run_split(st, a, b.drop_last());
        assert((a + b).drop_last() =~= a + b.drop_last());
        assert((a + b).last() == b.last());
    }
}

/// The estimate once the pending run is counted.
pub open spec fn try_flush(st: TryState) -> TryState {
    let (total, count, n, a, last) = st;
    if count > 0 {
        (total + gamma_bits(count as nat).len(), 0, n, a, last)
    } else {
        st
    }
}

/// Estimates the size of the Golomb coding of residuals without writing it.
pub struct TryCompress {
    total_bits: u32,
    count: u32,
    n: i32,
    a: i32,
    last_nonzero: bool,
}

impl TryCompress {
    /// The estimate's state.
    pub closed spec fn state(&self) -> TryState {
        (self.total_bits as int, self.count as int, self.n as int, self.a as int, self.last_nonzero)
    }

    pub closed spec fn wf(&self) -> bool {
        golomb_state_ok(self.a as int, self.n as int)
    }

    /// A fresh estimate.
    pub fn new() -> (t: Self)
        ensures
            t.wf(),
            t.state() == (0int, 0int, 0int, 0int, false),
    {
        TryCompress { total_bits: 0, count: 0, n: 0, a: 0, last_nonzero: false }
    }

    /// Starts a new estimate: one bit for the first-value flag, state `(0, 3)`.
    pub fn reset(&mut self)
        ensures
            final(self).wf(),
            final(self).state() == (1int, 0int, 3int, 0int, false),
    {
        self.total_bits = 1;
        self.count = 0;
        self.n = (GOLOMB_N_COUNT - 1) as i32;
        self.a = 0;
        self.last_nonzero = false;
    }

    fn step(&mut self, e: i8)
        requires
            old(self).wf(),
            old(self).state().0 + 110 <= u32::MAX,
            old(self).state().1 + 1 <= u32::MAX,
        ensures
            final(self).wf(),
            final(self).state() == try_step(old(self).state(), e as int),
            final(self).state().0 <= old(self).state().0 + 110,
            final(self).state().1 <= old(self).state().1 + 1,
    {
        if e != 0 {
            if !self.last_nonzero {
                if self.count > 0 {
                    proof {
                        lemma_gamma_bits_len(self.count);
                    }
                    self.total_bits = self.total_bits + gamma_bit_length(self.count);
                }
                self.count = 0;
            }
            self.count = self.count + 1;
            let k = golomb_param(self.a, self.n);
            let ee = e as i32;
            assert(-128 <= ee <= 127);
            let m = (if ee >= 0 {
                2 * ee
            } else {
                (0 - ee) * 2 - 1
            }) - 1;
            assert(m == golomb_m(e as int));
            let mu = m as u32;
            proof {
                vstd::bits::lemma_u32_shr_is_div(mu, k);
                vstd::arithmetic::power2::lemma_pow2_pos(k as nat);
                vstd::arithmetic::div_mod::lemma_div_is_ordered_by_denominator(mu as int, 1, pow2(k as nat) as int);
            }
            let mut unexp_bits = mu >> k;
            let cap = GOLOMB_GIVE_UP_BYTES as u32 * 8 - 4;
            if unexp_bits >= cap {
                unexp_bits = cap + 8;
            }
            self.total_bits = self.total_bits + unexp_bits + 1 + k;
            let (a2, n2) = golomb_advance(self.a, self.n, e);
            self.a = a2;
            self.n = n2;
            self.last_nonzero = true;
        } else {
            if self.last_nonzero {
                if self.count > 0 {
                    proof {
                        lemma_gamma_bits_len(self.count);
                    }
                    self.total_bits = self.total_bits + gamma_bit_length(self.count);
                    self.count = 0;
                }
            }
            self.count = self.count + 1;
            self.last_nonzero = false;
        }
    }

    /// Adds the residuals `buf` to the estimate; returns the bits counted.
    pub fn try_compress(&mut self, buf: &[i8]) -> (bits: u32)
        requires
            old(self).wf(),
            old(self).state().0 + 110 * buf@.len() <= u32::MAX,
            old(self).state().1 + buf@.len() <= u32::MAX,
        ensures
            final(self).wf(),
            final(self).state() == try_run(old(self).state(), buf@),
            bits == final(self).state().0,
            final(self).state().0 <= old(self).state().0 + 110 * buf@.len(),
            final(self).state().1 <= old(self).state().1 + buf@.len(),
    {
        let mut i: usize = 0;
        proof {
            assert(buf@.take(0) =~= Seq::<i8>::empty());
        }
        while i < buf.len()
            invariant
                self.wf(),
                i <= buf@.len(),
                self.state() == try_run(old(self).state(), buf@.take(i as int)),
                self.state().0 <= old(self).state().0 + 110 * i,
                self.state().1 <= old(self).state().1 + i,
                old(self).state().0 + 110 * buf@.len() <= u32::MAX,
                old(self).state().1 + buf@.len() <= u32::MAX,
            decreases buf@.len() - i,
        {
            self.step(buf[i]);
            proof {
                assert(buf@.take(i + 1).drop_last() =~= buf@.take(i as int));
            }
            i = i + 1;
        }
        proof {
            assert(buf@.take(buf@.len() as int) =~= buf@);
        }
        self.total_bits
    }

    /// Counts the pending run; returns the bits counted.
    pub fn flush(&mut self) -> (bits: u32)
        requires
            old(self).wf(),
            try_flush(old(self).state()).0 <= u32::MAX,
        ensures
            final(self).wf(),
            final(self).state() == try_flush(old(self).state()),
            bits == final(self).state().0,
    {
        if self.count > 0 {
            proof {
                lemma_gamma_bits_len(self.count);
            }
            self.total_bits = self.total_bits + gamma_bit_length(self.count);
            self.count = 0;
        }
        self.total_bits
    }
}

/// The length of the code of the non-zero residual `e` at state `(a, n)`
/// where it does not escape: quotient in unary, a stop bit, `k` low bits.
pub open spec fn val_len(e: int, a: int, n: int) -> int {
    golomb_m(e) / pow2(golomb_k(a, n) as nat) as int + 1 + golomb_k(a, n)
}

/// The code lengths of the non-zero residuals `s`, the first at `(a, n)`.
pub open spec fn nzs_len(s: Seq<i8>, a: int, n: int) -> int
    decreases s.len(),
{
    if s.len() == 0 {
        0
    } else {
        nzs_len(s.drop_last(), a, n) + val_len(s.last() as int, nzs_state(s.drop_last(), a, n).0, nzs_state(s.drop_last(), a, n).1)
    }
}

/// The adaptation state after the non-zero residuals `s` from `(a, n)`.
pub open spec fn nzs_state(s: Seq<i8>, a: int, n: int) -> (int, int)
    decreases s.len(),
{
    if s.len() == 0 {
        (a, n)
    } else {
        let st = nzs_state(s.drop_last(), a, n);
        golomb_next(st.0, st.1, s.last() as int)
    }
}

/// The length of the runs of `buf` from `i` on at state `(a, n)`, where no
/// code escapes: each run's gamma code, and the codes of non-zero values.
pub open spec fn body_len(buf: Seq<i8>, i: int, a: int, n: int) -> int
    decreases buf.len() - i,
{
    if i < 0 || i >= buf.len() {
        0
    } else {
        proof {
            lemma_run_bound(buf, i);
        }
        let r = run_len(buf, i);
        let g = gamma_bits(r).len() as int;
        if buf[i] == 0 {
            g + body_len(buf, i + r, a, n)
        } else {
            let sub = buf.subrange(i, i + r);
            let st = nzs_state(sub, a, n);
            g + nzs_len(sub, a, n) + body_len(buf, i + r, st.0, st.1)
        }
    }
}

/// No residual's code number reaches 25 (each lies in `-12..=12`), so no
/// code takes the escape.
pub open spec fn small_residuals(buf: Seq<i8>) -> bool {
    forall|i: int| 0 <= i < buf.len() ==> golomb_m(#[trigger] buf[i] as int) < 25
}

proof fn lemma_small_quotient(e: int, a: int, n: int)
    requires
        e != 0,
        golomb_m(e) < 25,
    ensures
        0 <= golomb_m(e) / pow2(golomb_k(a, n) as nat) as int <= golomb_m(e),
        0 <= golomb_k(a, n) <= 8,
{
    let k = golomb_k(a, n);
    vstd::arithmetic::power2::lemma_pow2_pos(k as nat);
    let d = pow2(k as nat) as int;
    let m = golomb_m(e);
    assert(0 <= m / d <= m) by (nonlinear_arith)
        requires
            m >= 0,
            d >= 1,
    ;
}

/// The front view of `nzs_len` and `nzs_state`.
proof fn lemma_nzs_front(s: Seq<i8>, a: int, n: int)
    requires
        s.len() > 0,
    ensures
        nzs_len(s, a, n) == val_len(s[0] as int, a, n) + nzs_len(
            s.drop_first(),
            golomb_next(a, n, s[0] as int).0,
            golomb_next(a, n, s[0] as int).1,
        ),
        nzs_state(s, a, n) == nzs_state(s.drop_first(), golomb_next(a, n, s[0] as int).0, golomb_next(a, n, s[0] as int).1),
    decreases s.len(),
{
    let (a1, n1) = golomb_next(a, n, s[0] as int);
    if s.len() == 1 {
        assert(s.drop_last() =~= Seq::<i8>::empty());
        assert(s.drop_first() =~= Seq::<i8>::empty());
        assert(s.last() == s[0]);
        assert(nzs_state(s.drop_last(), a, n) == (a, n));
        assert(nzs_len(s.drop_last(), a, n) == 0);
    } else {
        let s0 = s.drop_last();
        let t = s.drop_first();
        lemma_nzs_front(s0, a, n);
        assert(s0.drop_first() =~= t.drop_last());
        assert(s0[0] == s[0]);
        assert(t.last() == s.last());
        assert(nzs_len(t, a1, n1) == nzs_len(t.drop_last(), a1, n1) + val_len(
            t.last() as int,
            nzs_state(t.drop_last(), a1, n1).0,
            nzs_state(t.drop_last(), a1, n1).1,
        ));
        assert(nzs_state(t, a1, n1) == golomb_next(nzs_state(t.drop_last(), a1, n1).0, nzs_state(t.drop_last(), a1, n1).1, t.last() as int));
    }
}

/// The codes of non-zero residuals that do not escape have the lengths
/// `nzs_len` counts, wherever they start.
proof fn lemma_nz_bits_len(buf: Seq<i8>, j: int, end: int, a: int, n: int, p: nat)
    requires
        0 <= j <= end <= buf.len(),
        small_residuals(buf),
        forall|t: int| j <= t < end ==> #[trigger] buf[t] != 0,
    ensures
        nz_bits(buf, j, end, a, n, p).len() == nzs_len(buf.subrange(j, end), a, n),
        nz_state(buf, j, end, a, n) == nzs_state(buf.subrange(j, end), a, n),
    decreases end - j,
{
    let sub = buf.subrange(j, end);
    if j >= end {
        assert(sub =~= Seq::<i8>::empty());
    } else {
        let e = buf[j] as int;
        let (a2, n2) = golomb_next(a, n, e);
        let vb = golomb_value_bits(e, a, n, p);
        lemma_small_quotient(e, a, n);
        let k = golomb_k(a, n) as nat;
        let z = golomb_m(e) as nat / pow2(k);
        assert(z < 25);
        assert(golomb_unary(z, p).len() == z + 1);
        assert(vb.len() == val_len(e, a, n));
        lemma_nz_bits_len(buf, j + 1, end, a2, n2, p + vb.len());
        lemma_nzs_front(sub, a, n);
        assert(sub.drop_first() =~= buf.subrange(j + 1, end));
    }
}

/// The Golomb body of residuals that do not escape is `body_len` long.
proof fn lemma_body_len(buf: Seq<i8>, i: int, a: int, n: int, p: nat)
    requires
        small_residuals(buf),
    ensures
        golomb_body(buf, i, a, n, p).len() == body_len(buf, i, a, n),
    decreases buf.len() - i,
{
    if 0 <= i < buf.len() {
        lemma_run_bound(buf, i);
        let r = run_len(buf, i);
        let g = gamma_bits(r);
        if buf[i] == 0 {
            lemma_body_len(buf, i + r, a, n, p + g.len());
        } else {
            lemma_run_kind(buf, i);
            lemma_nz_bits_len(buf, i, i + r, a, n, p + g.len());
            let nb = nz_bits(buf, i, i + r, a, n, p + g.len());
            let (a2, n2) = nz_state(buf, i, i + r, a, n);
            lemma_body_len(buf, i + r, a2, n2, p + g.len() + nb.len());
        }
    }
}

/// Every value of the run at `i` is of its kind, and the value after it
/// is not.
proof fn lemma_run_kind(buf: Seq<i8>, i: int)
    requires
        0 <= i < buf.len(),
    ensures
        forall|t: int| i <= t < i + run_len(buf, i) ==> (#[trigger] buf[t] != 0) == (buf[i] != 0),
        i + run_len(buf, i) < buf.len() ==> (buf[i + run_len(buf, i)] != 0) != (buf[i] != 0),
    decreases buf.len() - i,
{
    if i + 1 < buf.len() && (buf[i + 1] != 0) == (buf[i] != 0) {
        lemma_run_kind(buf, i + 1);
    }
}

/// The gamma length of a pending run, none where there is none.
pub open spec fn pending_len(count: int) -> int {
    if count > 0 {
        gamma_bits(count as nat).len() as int
    } else {
        0
    }
}

/// Counting a run of zeros after a run of the other kind (or at the
/// start) adds the gamma code of that run and leaves this one pending.
proof fn lemma_try_zeros(st: TryState, s: Seq<i8>)
    requires
        s.len() > 0,
        forall|t: int| 0 <= t < s.len() ==> #[trigger] s[t] == 0,
        st.1 >= 0,
        st.1 > 0 ==> st.4,
    ensures
        try_run(st, s) == (st.0 + pending_len(st.1), s.len() as int, st.2, st.3, false),
    decreases s.len(),
{
    let s0 = s.drop_last();
    assert(s.last() == s[s.len() - 1]);
    if s.len() > 1 {
        assert forall|t: int| 0 <= t < s0.len() implies #[trigger] s0[t] == 0 by {
            assert(s0[t] == s[t]);
        }
        lemma_try_zeros(st, s0);
    } else {
        assert(s0 =~= Seq::<i8>::empty());
    }
    assert(try_run(st, s) == try_step(try_run(st, s0), s.last() as int));
}

/// Counting a run of non-zero values after a run of zeros (or at the
/// start) adds the gamma code of that run and the codes of the values.
proof fn lemma_try_nonzeros(st: TryState, s: Seq<i8>)
    requires
        s.len() > 0,
        forall|t: int| 0 <= t < s.len() ==> #[trigger] s[t] != 0,
        forall|t: int| 0 <= t < s.len() ==> golomb_m(#[trigger] s[t] as int) < 25,
        st.1 >= 0,
        st.1 > 0 ==> !st.4,
    ensures
        try_run(st, s) == (
            st.0 + pending_len(st.1) + nzs_len(s, st.3, st.2),
            s.len() as int,
            nzs_state(s, st.3, st.2).1,
            nzs_state(s, st.3, st.2).0,
            true,
        ),
    decreases s.len(),
{
    let s0 = s.drop_last();
    let e = s.last() as int;
    assert(s.last() == s[s.len() - 1]);
    if s.len() > 1 {
        assert forall|t: int| 0 <= t < s0.len() implies #[trigger] s0[t] != 0 by {
            assert(s0[t] == s[t]);
        }
        assert forall|t: int| 0 <= t < s0.len() implies golomb_m(#[trigger] s0[t] as int) < 25 by {
            assert(s0[t] == s[t]);
        }
        lemma_try_nonzeros(st, s0);
    } else {
        assert(s0 =~= Seq::<i8>::empty());
    }
    let ast = nzs_state(s0, st.3, st.2);
    lemma_small_quotient(e, ast.0, ast.1);
    assert(try_run(st, s) == try_step(try_run(st, s0), e));
}

/// Counting the runs of `buf` from a run boundary `i` on, then the last
/// pending run, counts the pending run and `body_len`.
proof fn lemma_try_body(buf: Seq<i8>, i: int, st: TryState)
    requires
        0 <= i <= buf.len(),
        small_residuals(buf),
        st.1 >= 0,
        st.1 > 0 ==> 0 < i && st.4 == (buf[i - 1] != 0) && (i < buf.len() ==> (buf[i] != 0) != st.4),
    ensures
        try_flush(try_run(st, buf.subrange(i, buf.len() as int))).0 == st.0 + pending_len(st.1) + body_len(buf, i, st.3, st.2),
    decreases buf.len() - i,
{
    if i == buf.len() {
        assert(buf.subrange(i, buf.len() as int) =~= Seq::<i8>::empty());
    } else {
        lemma_run_bound(buf, i);
        lemma_run_kind(buf, i);
        let r = run_len(buf, i) as int;
        let run = buf.subrange(i, i + r);
        let rest = buf.subrange(i + r, buf.len() as int);
        assert(buf.subrange(i, buf.len() as int) =~= run + rest);
        lemma_try_run_split(st, run, rest);
        if buf[i] == 0 {
            assert forall|t: int| 0 <= t < run.len() implies #[trigger] run[t] == 0 by {
                assert(run[t] == buf[i + t]);
            }
            lemma_try_zeros(st, run);
            let st2 = try_run(st, run);
            lemma_try_body(buf, i + r, st2);
        } else {
            assert forall|t: int| 0 <= t < run.len() implies #[trigger] run[t] != 0 by {
                assert(run[t] == buf[i + t]);
            }
            assert forall|t: int| 0 <= t < run.len() implies golomb_m(#[trigger] run[t] as int) < 25 by {
                assert(run[t] == buf[i + t]);
            }
            lemma_try_nonzeros(st, run);
            let st2 = try_run(st, run);
            lemma_try_body(buf, i + r, st2);
        }
    }
}

/// Where no code escapes, the estimate is the length of the coding: what
/// `TryCompress` counts for `buf` from a fresh state is the number of bits
/// `compress_values_golomb` writes for it.
pub proof fn lemma_estimate_exact(buf: Seq<i8>, p: nat)
    requires
        small_residuals(buf),
    ensures
        try_flush(try_run((1int, 0int, 3int, 0int, false), buf)).0 == golomb_bits(buf, p).len(),
{
    assert(buf.subrange(0, buf.len() as int) =~= buf);
    lemma_try_body(buf, 0, (1int, 0int, 3int, 0int, false));
    lemma_body_len(buf, 0, 0, 3, p + 1);
}

} // verus!
