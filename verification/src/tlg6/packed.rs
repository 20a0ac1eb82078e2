//! Predictions on four channels at once, packed in a 32-bit word one byte
//! per channel.

use vstd::prelude::*;
use super::predict::med;

verus! {

/// Byte `j` (0 is the least significant) of a packed word.
pub open spec fn lane(x: u32, j: u32) -> u32 {
    (x >> (8 * j)) & 0xff
}

/// Byte-wise `a >= b`: 0x80 in each byte where it holds, 0 elsewhere.
pub open spec fn ge_mask_spec(a: u32, b: u32, j: u32) -> u32 {
    if lane(a, j) >= lane(b, j) {
        0x80
    } else {
        0
    }
}

/// Byte-wise `a >= b`, spread over the whole byte: 0xff or 0.
pub open spec fn ge_full_spec(a: u32, b: u32, j: u32) -> u32 {
    if lane(a, j) >= lane(b, j) {
        0xff
    } else {
        0
    }
}

proof fn lemma_ge_mask(a: u32, b: u32, r: u32)
    by (bit_vector)
    requires
        r == vstd::wrapping::u32_specs::wrapping_sub(a | !b, ((a ^ !b) >> 1) & 0x7f7f7f7f) & 0x80808080,
    ensures
        lane(r, 0) == ge_mask_spec(a, b, 0),
        lane(r, 1) == ge_mask_spec(a, b, 1),
        lane(r, 2) == ge_mask_spec(a, b, 2),
        lane(r, 3) == ge_mask_spec(a, b, 3),
{
}

/// Byte-wise comparison: 0x80 in each byte where `a`'s byte is greater
/// than or equal to `b`'s, 0 elsewhere.  Each byte of `a | !b` minus half
/// of `a ^ !b` is the rounded-up mean of `a` and `255 - b`, which reaches
/// 128 exactly where `a >= b`.
pub fn make_gt_mask(a: u32, b: u32) -> (r: u32)
    ensures
        forall|j: u32| j < 4 ==> #[trigger] lane(r, j) == ge_mask_spec(a, b, j),
{
    let tmp2 = !b;
    let r = (a | tmp2).wrapping_sub(((a ^ tmp2) >> 1) & 0x7f7f7f7f) & 0x80808080;
    proof {
        lemma_ge_mask(a, b, r);
    }
    r
}

proof fn lemma_spread(m: u32, r: u32)
    by (bit_vector)
    requires
        lane(m, 0) == 0x80 || lane(m, 0) == 0,
        lane(m, 1) == 0x80 || lane(m, 1) == 0,
        lane(m, 2) == 0x80 || lane(m, 2) == 0,
        lane(m, 3) == 0x80 || lane(m, 3) == 0,
        r == (((m >> 7) + 0x7f7f7f7f) as u32) ^ 0x7f7f7f7f,
    ensures
        (m >> 7) + 0x7f7f7f7f <= 0xffffffff,
        lane(r, 0) == (if lane(m, 0) == 0x80 { 0xffu32 } else { 0u32 }),
        lane(r, 1) == (if lane(m, 1) == 0x80 { 0xffu32 } else { 0u32 }),
        lane(r, 2) == (if lane(m, 2) == 0x80 { 0xffu32 } else { 0u32 }),
        lane(r, 3) == (if lane(m, 3) == 0x80 { 0xffu32 } else { 0u32 }),
{
}

/// Byte-wise `a >= b` as whole bytes: the mask of `make_gt_mask` with each
/// 0x80 spread to 0xff.
fn ge_full_mask(a: u32, b: u32) -> (r: u32)
    ensures
        lane(r, 0) == ge_full_spec(a, b, 0),
        lane(r, 1) == ge_full_spec(a, b, 1),
        lane(r, 2) == ge_full_spec(a, b, 2),
        lane(r, 3) == ge_full_spec(a, b, 3),
{
    let m = make_gt_mask(a, b);
    proof {
        assert(lane(m, 0) == ge_mask_spec(a, b, 0) && lane(m, 1) == ge_mask_spec(a, b, 1)
            && lane(m, 2) == ge_mask_spec(a, b, 2) && lane(m, 3) == ge_mask_spec(a, b, 3));
        lemma_spread(m, ((((m >> 7) + 0x7f7f7f7f) as u32) ^ 0x7f7f7f7f) as u32);
    }
    ((m >> 7) + 0x7f7f7f7f) ^ 0x7f7f7f7f
}

proof fn lemma_packed_add(a: u32, b: u32, t: u32, r: u32)
    by (bit_vector)
    requires
        t == vstd::wrapping::u32_specs::wrapping_add((a & b) << 1, (a ^ b) & 0xfefefefe) & 0x01010100,
        r == vstd::wrapping::u32_specs::wrapping_sub(vstd::wrapping::u32_specs::wrapping_add(a, b), t),
    ensures
        lane(r, 0) == (lane(a, 0) + lane(b, 0)) % 256,
        lane(r, 1) == (lane(a, 1) + lane(b, 1)) % 256,
        lane(r, 2) == (lane(a, 2) + lane(b, 2)) % 256,
        lane(r, 3) == (lane(a, 3) + lane(b, 3)) % 256,
{
}

/// Byte-wise addition modulo 256, without carries between bytes.
pub fn packed_bytes_add(a: u32, b: u32) -> (r: u32)
    ensures
        forall|j: u32| j < 4 ==> #[trigger] lane(r, j) == (lane(a, j) + lane(b, j)) % 256,
{
    let tmp = (((a & b) << 1).wrapping_add((a ^ b) & 0xfefefefe)) & 0x01010100;
    let s = a.wrapping_add(b);
    proof {
        lemma_packed_add(a, b, tmp, vstd::wrapping::u32_specs::wrapping_sub(s, tmp));
    }
    s.wrapping_sub(tmp)
}

/// The byte-wise median edge detector.
pub open spec fn med_lane(a: u32, b: u32, c: u32, j: u32) -> int {
    med(lane(a, j) as int, lane(b, j) as int, lane(c, j) as int)
}

proof fn lemma_med2(a: u32, b: u32, c: u32, g: u32, aa: u32, bb: u32, n: u32, nn: u32, r: u32)
    by (bit_vector)
    requires
        lane(g, 0) == (if lane(a, 0) >= lane(b, 0) { 0xffu32 } else { 0u32 }),
        lane(g, 1) == (if lane(a, 1) >= lane(b, 1) { 0xffu32 } else { 0u32 }),
        lane(g, 2) == (if lane(a, 2) >= lane(b, 2) { 0xffu32 } else { 0u32 }),
        lane(g, 3) == (if lane(a, 3) >= lane(b, 3) { 0xffu32 } else { 0u32 }),
        aa == ((a ^ b) & g) ^ a,
        bb == ((a ^ b) & g) ^ b,
        lane(n, 0) == (if lane(c, 0) >= lane(bb, 0) { 0xffu32 } else { 0u32 }),
        lane(n, 1) == (if lane(c, 1) >= lane(bb, 1) { 0xffu32 } else { 0u32 }),
        lane(n, 2) == (if lane(c, 2) >= lane(bb, 2) { 0xffu32 } else { 0u32 }),
        lane(n, 3) == (if lane(c, 3) >= lane(bb, 3) { 0xffu32 } else { 0u32 }),
        lane(nn, 0) == (if lane(aa, 0) >= lane(c, 0) { 0xffu32 } else { 0u32 }),
        lane(nn, 1) == (if lane(aa, 1) >= lane(c, 1) { 0xffu32 } else { 0u32 }),
        lane(nn, 2) == (if lane(aa, 2) >= lane(c, 2) { 0xffu32 } else { 0u32 }),
        lane(nn, 3) == (if lane(aa, 3) >= lane(c, 3) { 0xffu32 } else { 0u32 }),
        r == (n & aa) | (nn & bb) | vstd::wrapping::u32_specs::wrapping_add(
            vstd::wrapping::u32_specs::wrapping_sub(bb & !(n | nn), c & !(n | nn)),
            aa & !(n | nn),
        ),
    ensures
        lane(r, 0) == med_lane(a, b, c, 0),
        lane(r, 1) == med_lane(a, b, c, 1),
        lane(r, 2) == med_lane(a, b, c, 2),
        lane(r, 3) == med_lane(a, b, c, 3),
{
}

/// The median edge detector on each byte: the smaller of `a` and `b` where
/// `c` is at least the larger, the larger where `c` is at most the smaller,
/// and `a + b - c` otherwise.  The byte masks are those of `make_gt_mask`
/// spread to whole bytes; where a comparison ties, either choice gives the
/// same byte.
pub fn med2(a: u32, b: u32, c: u32) -> (r: u32)
    ensures
        forall|j: u32| j < 4 ==> #[trigger] lane(r, j) == med_lane(a, b, c, j),
{
    let aa_ge_bb = ge_full_mask(a, b);
    let a_xor_b_and_aa_ge_bb = (a ^ b) & aa_ge_bb;
    let aa = a_xor_b_and_aa_ge_bb ^ a;
    let bb = a_xor_b_and_aa_ge_bb ^ b;
    let n = ge_full_mask(c, bb);
    let nn = ge_full_mask(aa, c);
    let m = !(n | nn);
    let r = (n & aa) | (nn & bb) | ((bb & m).wrapping_sub(c & m).wrapping_add(aa & m));
    proof {
        lemma_med2(a, b, c, aa_ge_bb, aa, bb, n, nn, r);
    }
    r
}

/// The median edge detector's prediction plus the residual, on each byte.
pub fn med_predict_add(p: u32, u: u32, up: u32, residual: u32) -> (r: u32)
    ensures
        forall|j: u32| j < 4 ==> #[trigger] lane(r, j) == (med_lane(p, u, up, j) + lane(residual, j)) % 256,
{
    let m = med2(p, u, up);
    let r = packed_bytes_add(m, residual);
    proof {
        assert forall|j: u32| j < 4 implies #[trigger] lane(r, j) == (med_lane(p, u, up, j) + lane(residual, j)) % 256 by {
            assert(lane(m, j) == med_lane(p, u, up, j));
        }
    }
    r
}

proof fn lemma_avg(p: u32, u: u32, avg: u32)
    by (bit_vector)
    requires
        avg == ((p & u) + (((p ^ u) & 0xfefefefe) >> 1) + ((p ^ u) & 0x01010101)) as u32,
    ensures
        (p & u) + (((p ^ u) & 0xfefefefe) >> 1) + ((p ^ u) & 0x01010101) <= 0xffffffff,
        lane(avg, 0) == (lane(p, 0) + lane(u, 0) + 1) / 2,
        lane(avg, 1) == (lane(p, 1) + lane(u, 1) + 1) / 2,
        lane(avg, 2) == (lane(p, 2) + lane(u, 2) + 1) / 2,
        lane(avg, 3) == (lane(p, 3) + lane(u, 3) + 1) / 2,
{
}

/// The average of the left and upper neighbours, rounded up, plus the
/// residual, on each byte.
pub fn avg_predict_add(p: u32, u: u32, residual: u32) -> (r: u32)
    ensures
        forall|j: u32| j < 4 ==> #[trigger] lane(r, j) == ((lane(p, j) + lane(u, j) + 1) / 2 + lane(residual, j)) % 256,
{
    proof {
        lemma_avg(p, u, ((p & u) + (((p ^ u) & 0xfefefefe) >> 1) + ((p ^ u) & 0x01010101)) as u32);
    }
    let avg = (p & u) + (((p ^ u) & 0xfefefefe) >> 1) + ((p ^ u) & 0x01010101);
    let r = packed_bytes_add(avg, residual);
    proof {
        assert forall|j: u32| j < 4 implies #[trigger] lane(r, j) == ((lane(p, j) + lane(u, j) + 1) / 2 + lane(residual, j)) % 256 by {
            assert(lane(avg, j) == (lane(p, j) + lane(u, j) + 1) / 2);
        }
    }
    r
}

} // verus!
