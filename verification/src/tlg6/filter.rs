//! Colour-correlation filters: each of sixteen codes subtracts channels
//! from one another to decorrelate the blue, green and red residuals.

use vstd::prelude::*;
use super::golomb::{golomb_k, golomb_m, lemma_gamma_bits_len, try_flush, try_run, try_step, TryCompress, TryState};

verus! {

/// Number of filter codes tried per block.
pub const FILTER_TRY_COUNT: usize = 16;

/// The value in `-128..128` congruent to `x` modulo 256.
pub open spec fn wrap8(x: int) -> int {
    x - 256 * ((x + 128) / 256)
}

/// What filter `code` makes of the blue, green and red residuals `b`, `g`,
/// `r`, before wrapping to a byte.
pub open spec fn filter_fwd(code: int, b: int, g: int, r: int) -> (int, int, int) {
    if code == 1 {
        (b - g, g, r - g)
    } else if code == 2 {
        (b, g - b, r - g)
    } else if code == 3 {
        (b - g, g - r, r)
    } else if code == 4 {
        (b - r + g, g - b, r - g)
    } else if code == 5 {
        (b - r, g - b, r)
    } else if code == 6 {
        (b - g, g, r)
    } else if code == 7 {
        (b, g - b, r)
    } else if code == 8 {
        (b, g, r - g)
    } else if code == 9 {
        (b - g, g - r, r - b + g)
    } else if code == 10 {
        (b - r, g - r, r)
    } else if code == 11 {
        (b, g - b, r - b)
    } else if code == 12 {
        (b, g - r, r - b)
    } else if code == 13 {
        (b - g + r, g - r, r - b)
    } else if code == 14 {
        (b - g, g - r + b, r - b)
    } else if code == 15 {
        (b, g - 2 * b, r - 2 * b)
    } else {
        (b, g, r)
    }
}

/// Filter `code` applied to one pixel's residuals, wrapped to bytes.
pub open spec fn filter8(code: int, b: i8, g: i8, r: i8) -> (i8, i8, i8) {
    let (x, y, z) = filter_fwd(code, b as int, g as int, r as int);
    (wrap8(x) as i8, wrap8(y) as i8, wrap8(z) as i8)
}

/// What the decoder adds back for filter `ft`, from the filtered residuals.
#[verifier::opaque]
pub open spec fn inverse_filter(ft: int, ib: int, ig: int, ir: int, ia: int) -> (int, int, int, int) {
    if ft == 1 {
        (ib + ig, ig, ir + ig, ia)
    } else if ft == 2 {
        (ib, ig + ib, ir + ib + ig, ia)
    } else if ft == 3 {
        (ib + ir + ig, ig + ir, ir, ia)
    } else if ft == 4 {
        (ib + ir, ig + ib + ir, ir + ib + ir + ig, ia)
    } else if ft == 5 {
        (ib + ir, ig + ib + ir, ir, ia)
    } else if ft == 6 {
        (ib + ig, ig, ir, ia)
    } else if ft == 7 {
        (ib, ig + ib, ir, ia)
    } else if ft == 8 {
        (ib, ig, ir + ig, ia)
    } else if ft == 9 {
        (ib + ig + ir + ib, ig + ir + ib, ir + ib, ia)
    } else if ft == 10 {
        (ib + ir, ig + ir, ir, ia)
    } else if ft == 11 {
        (ib, ig + ib, ir + ib, ia)
    } else if ft == 12 {
        (ib, ig + ir + ib, ir + ib, ia)
    } else if ft == 13 {
        (ib + ig, ig + ir + ib + ig, ir + ib + ig, ia)
    } else if ft == 14 {
        (ib + ig + ir, ig + ir, ir + ib + ig + ir, ia)
    } else if ft == 15 {
        (ib, ig + 2 * ib, ir + 2 * ib, ia)
    } else {
        (ib, ig, ir, ia)
    }
}

proof fn lemma_wrap8(x: int, y: int)
    ensures
        -128 <= wrap8(x) < 128,
        -128 <= x < 128 ==> wrap8(x) == x,
        wrap8(x - wrap8(y)) == wrap8(x - y),
        wrap8(wrap8(x) - y) == wrap8(x - y),
        wrap8(x + wrap8(y)) == wrap8(x + y),
{
    let q = (y + 128) / 256;
    assert(x - wrap8(y) == (x - y) + 256 * q);
    assert((x - y + 256 * q + 128) / 256 == (x - y + 128) / 256 + q) by {
        vstd::arithmetic::div_mod::lemma_hoist_over_denominator(x - y + 128, q, 256);
    }
    assert((x + y - 256 * q + 128) / 256 == (x + y + 128) / 256 - q) by {
        vstd::arithmetic::div_mod::lemma_hoist_over_denominator(x + y + 128, -q, 256);
    }
    let q2 = (x + 128) / 256;
    assert((x - y - 256 * q2 + 128) / 256 == (x - y + 128) / 256 - q2) by {
        vstd::arithmetic::div_mod::lemma_hoist_over_denominator(x - y + 128, -q2, 256);
    }
}

proof fn lemma_wsub(x: i8, y: i8)
    ensures
        vstd::wrapping::i8_specs::wrapping_sub(x, y) as int == wrap8(x - y),
        vstd::wrapping::i8_specs::wrapping_add(x, y) as int == wrap8(x + y),
{
}

/// Filter `code` applied to one pixel's residuals.
#[verifier::rlimit(60)]
#[verifier::spinoff_prover]
fn filter_pixel(code: u32, b: i8, g: i8, r: i8) -> (res: (i8, i8, i8))
    ensures
        res == filter8(code as int, b, g, r),
{
    proof {
        lemma_wrap8(b as int, 0);
        lemma_wrap8(g as int, 0);
        lemma_wrap8(r as int, 0);
        lemma_wsub(b, g);
        lemma_wsub(b, r);
        lemma_wsub(g, b);
        lemma_wsub(g, r);
        lemma_wsub(r, g);
        lemma_wsub(r, b);
    }
    match code {
        1 => (b.wrapping_sub(g), g, r.wrapping_sub(g)),
        2 => (b, g.wrapping_sub(b), r.wrapping_sub(g)),
        3 => (b.wrapping_sub(g), g.wrapping_sub(r), r),
        4 => {
            let r1 = r.wrapping_sub(g);
            let g1 = g.wrapping_sub(b);
            let b1 = b.wrapping_sub(r1);
            proof {
                lemma_wsub(b, r1);
                lemma_wrap8(b as int, r - g);
                lemma_wrap8(b - r + g, 0);
            }
            (b1, g1, r1)
        },
        5 => (b.wrapping_sub(r), g.wrapping_sub(b), r),
        6 => (b.wrapping_sub(g), g, r),
        7 => (b, g.wrapping_sub(b), r),
        8 => (b, g, r.wrapping_sub(g)),
        9 => {
            let b1 = b.wrapping_sub(g);
            let g1 = g.wrapping_sub(r);
            let r1 = r.wrapping_sub(b1);
            proof {
                lemma_wsub(r, b1);
                lemma_wrap8(r as int, b - g);
                lemma_wrap8(r - b + g, 0);
            }
            (b1, g1, r1)
        },
        10 => (b.wrapping_sub(r), g.wrapping_sub(r), r),
        11 => (b, g.wrapping_sub(b), r.wrapping_sub(b)),
        12 => (b, g.wrapping_sub(r), r.wrapping_sub(b)),
        13 => {
            let g1 = g.wrapping_sub(r);
            let r1 = r.wrapping_sub(b);
            let b1 = b.wrapping_sub(g1);
            proof {
                lemma_wsub(b, g1);
                lemma_wrap8(b as int, g - r);
                lemma_wrap8(b - g + r, 0);
            }
            (b1, g1, r1)
        },
        14 => {
            let r1 = r.wrapping_sub(b);
            let b1 = b.wrapping_sub(g);
            let g1 = g.wrapping_sub(r1);
            proof {
                lemma_wsub(g, r1);
                lemma_wrap8(g as int, r - b);
                lemma_wrap8(g - r + b, 0);
            }
            (b1, g1, r1)
        },
        15 => {
            let t = b.wrapping_add(b);
            let r1 = r.wrapping_sub(t);
            let g1 = g.wrapping_sub(t);
            proof {
                lemma_wsub(b, b);
                lemma_wsub(r, t);
                lemma_wsub(g, t);
                lemma_wrap8(r as int, 2 * b);
                lemma_wrap8(g as int, 2 * b);
            }
            (b, g1, r1)
        },
        _ => (b, g, r),
    }
}

/// Applies filter `code` to the first `len` pixels of the three channels.
pub fn apply_color_filter(b: &mut [i8], g: &mut [i8], r: &mut [i8], len: usize, code: u32)
    requires
        len <= old(b)@.len(),
        len <= old(g)@.len(),
        len <= old(r)@.len(),
    ensures
        final(b)@.len() == old(b)@.len(),
        final(g)@.len() == old(g)@.len(),
        final(r)@.len() == old(r)@.len(),
        forall|i: int| 0 <= i < len ==> (final(b)@[i], final(g)@[i], final(r)@[i]) == #[trigger] filter8(
            code as int,
            old(b)@[i],
            old(g)@[i],
            old(r)@[i],
        ),
        forall|i: int| len <= i < old(b)@.len() ==> final(b)@[i] == old(b)@[i],
        forall|i: int| len <= i < old(g)@.len() ==> final(g)@[i] == old(g)@[i],
        forall|i: int| len <= i < old(r)@.len() ==> final(r)@[i] == old(r)@[i],
{
    let mut i: usize = 0;
    while i < len
        invariant
            i <= len,
            len <= old(b)@.len(),
            len <= old(g)@.len(),
            len <= old(r)@.len(),
            b@.len() == old(b)@.len(),
            g@.len() == old(g)@.len(),
            r@.len() == old(r)@.len(),
            forall|k: int| 0 <= k < i ==> (b@[k], g@[k], r@[k]) == #[trigger] filter8(code as int, old(b)@[k], old(g)@[k], old(r)@[k]),
            forall|k: int| i <= k < b@.len() ==> b@[k] == old(b)@[k],
            forall|k: int| i <= k < g@.len() ==> g@[k] == old(g)@[k],
            forall|k: int| i <= k < r@.len() ==> r@[k] == old(r)@[k],
        decreases len - i,
    {
        let (nb, ng, nr) = filter_pixel(code, b[i], g[i], r[i]);
        b[i] = nb;
        g[i] = ng;
        r[i] = nr;
        i = i + 1;
    }
}

/// What the decoder adds back for filter `ft`: the residuals before
/// filtering, up to multiples of 256 (see `lemma_filter_inverse`).
pub fn inverse_color_filter(ft: u8, ib: i8, ig: i8, ir: i8, ia: i8) -> (res: (i32, i32, i32, i32))
    ensures
        (res.0 as int, res.1 as int, res.2 as int, res.3 as int) == inverse_filter(ft as int, ib as int, ig as int, ir as int, ia as int),
        -1024 < res.0 < 1024,
        -1024 < res.1 < 1024,
        -1024 < res.2 < 1024,
        -1024 < res.3 < 1024,
{
    proof {
        reveal(inverse_filter);
    }
    let ib = ib as i32;
    let ig = ig as i32;
    let ir = ir as i32;
    let ia = ia as i32;
    match ft {
        0 => (ib, ig, ir, ia),
        1 => (ib + ig, ig, ir + ig, ia),
        2 => (ib, ig + ib, ir + ib + ig, ia),
        3 => (ib + ir + ig, ig + ir, ir, ia),
        4 => (ib + ir, ig + ib + ir, ir + ib + ir + ig, ia),
        5 => (ib + ir, ig + ib + ir, ir, ia),
        6 => (ib + ig, ig, ir, ia),
        7 => (ib, ig + ib, ir, ia),
        8 => (ib, ig, ir + ig, ia),
        9 => (ib + ig + ir + ib, ig + ir + ib, ir + ib, ia),
        10 => (ib + ir, ig + ir, ir, ia),
        11 => (ib, ig + ib, ir + ib, ia),
        12 => (ib, ig + ir + ib, ir + ib, ia),
        13 => (ib + ig, ig + ir + ib + ig, ir + ib + ig, ia),
        14 => (ib + ig + ir, ig + ir, ir + ib + ig + ir, ia),
        15 => (ib, ig + ib * 2, ir + ib * 2, ia),
        _ => (ib, ig, ir, ia),
    }
}

/// `x - y` wrapped to a byte, as the filters subtract.
pub open spec fn sub8(x: i8, y: i8) -> i8 {
    vstd::wrapping::i8_specs::wrapping_sub(x, y)
}

/// The sixteen colour filters of the format, each as its sequence of
/// in-place byte subtractions on the blue, green and red residuals (a later
/// step sees the channels the earlier steps changed): code 0 leaves them;
/// 1: r -= g, b -= g; 2: r -= g, g -= b; 3: b -= g, g -= r;
/// 4: r -= g, g -= b, b -= r; 5: g -= b, b -= r; 6: b -= g; 7: g -= b;
/// 8: r -= g; 9: b -= g, g -= r, r -= b; 10: g -= r, b -= r;
/// 11: r -= b, g -= b; 12: g -= r, r -= b; 13: g -= r, r -= b, b -= g;
/// 14: r -= b, b -= g, g -= r; 15: r -= 2b, g -= 2b.
pub proof fn lemma_filter_table(b: i8, g: i8, r: i8)
    ensures
        filter8(0, b, g, r) == (b, g, r),
        filter8(1, b, g, r) == (sub8(b, g), g, sub8(r, g)),
        filter8(2, b, g, r) == (b, sub8(g, b), sub8(r, g)),
        filter8(3, b, g, r) == (sub8(b, g), sub8(g, r), r),
        filter8(4, b, g, r) == ({
            let r1 = sub8(r, g);
            let g1 = sub8(g, b);
            (sub8(b, r1), g1, r1)
        }),
        filter8(5, b, g, r) == (sub8(b, r), sub8(g, b), r),
        filter8(6, b, g, r) == (sub8(b, g), g, r),
        filter8(7, b, g, r) == (b, sub8(g, b), r),
        filter8(8, b, g, r) == (b, g, sub8(r, g)),
        filter8(9, b, g, r) == ({
            let b1 = sub8(b, g);
            let g1 = sub8(g, r);
            (b1, g1, sub8(r, b1))
        }),
        filter8(10, b, g, r) == (sub8(b, r), sub8(g, r), r),
        filter8(11, b, g, r) == (b, sub8(g, b), sub8(r, b)),
        filter8(12, b, g, r) == (b, sub8(g, r), sub8(r, b)),
        filter8(13, b, g, r) == ({
            let g1 = sub8(g, r);
            let r1 = sub8(r, b);
            (sub8(b, g1), g1, r1)
        }),
        filter8(14, b, g, r) == ({
            let r1 = sub8(r, b);
            let b1 = sub8(b, g);
            (b1, sub8(g, r1), r1)
        }),
        filter8(15, b, g, r) == ({
            let t = vstd::wrapping::i8_specs::wrapping_add(b, b);
            (b, sub8(g, t), sub8(r, t))
        }),
{
    lemma_wrap8(b as int, 0);
    lemma_wrap8(g as int, 0);
    lemma_wrap8(r as int, 0);
    lemma_wsub(b, g);
    lemma_wsub(b, r);
    lemma_wsub(g, b);
    lemma_wsub(g, r);
    lemma_wsub(r, g);
    lemma_wsub(r, b);
    lemma_wsub(b, b);
    let r1 = sub8(r, g);
    lemma_wsub(b, r1);
    lemma_wrap8(b as int, r - g);
    lemma_wrap8(b - r + g, 0);
    let b1 = sub8(b, g);
    lemma_wsub(r, b1);
    lemma_wrap8(r as int, b - g);
    lemma_wrap8(r - b + g, 0);
    let g1 = sub8(g, r);
    lemma_wsub(b, g1);
    lemma_wrap8(b as int, g - r);
    lemma_wrap8(b - g + r, 0);
    let r2 = sub8(r, b);
    lemma_wsub(g, r2);
    lemma_wrap8(g as int, r - b);
    lemma_wrap8(g - r + b, 0);
    let t = vstd::wrapping::i8_specs::wrapping_add(b, b);
    lemma_wsub(r, t);
    lemma_wsub(g, t);
    lemma_wrap8(r as int, 2 * b);
    lemma_wrap8(g as int, 2 * b);
}

/// What the decoder adds back for each filter code: the filter's
/// subtractions undone as additions, last step first, on the residuals it
/// read (`ib`, `ig`, `ir`; alpha `ia` is never filtered).
pub proof fn lemma_inverse_table(ib: int, ig: int, ir: int, ia: int)
    ensures
        inverse_filter(0, ib, ig, ir, ia) == (ib, ig, ir, ia),
        inverse_filter(1, ib, ig, ir, ia) == ({
            let b = ib + ig;
            let r = ir + ig;
            (b, ig, r, ia)
        }),
        inverse_filter(2, ib, ig, ir, ia) == ({
            let g = ig + ib;
            let r = ir + g;
            (ib, g, r, ia)
        }),
        inverse_filter(3, ib, ig, ir, ia) == ({
            let g = ig + ir;
            let b = ib + g;
            (b, g, ir, ia)
        }),
        inverse_filter(4, ib, ig, ir, ia) == ({
            let b = ib + ir;
            let g = ig + b;
            let r = ir + g;
            (b, g, r, ia)
        }),
        inverse_filter(5, ib, ig, ir, ia) == ({
            let b = ib + ir;
            let g = ig + b;
            (b, g, ir, ia)
        }),
        inverse_filter(6, ib, ig, ir, ia) == (ib + ig, ig, ir, ia),
        inverse_filter(7, ib, ig, ir, ia) == (ib, ig + ib, ir, ia),
        inverse_filter(8, ib, ig, ir, ia) == (ib, ig, ir + ig, ia),
        inverse_filter(9, ib, ig, ir, ia) == ({
            let r = ir + ib;
            let g = ig + r;
            let b = ib + g;
            (b, g, r, ia)
        }),
        inverse_filter(10, ib, ig, ir, ia) == (ib + ir, ig + ir, ir, ia),
        inverse_filter(11, ib, ig, ir, ia) == (ib, ig + ib, ir + ib, ia),
        inverse_filter(12, ib, ig, ir, ia) == ({
            let r = ir + ib;
            let g = ig + r;
            (ib, g, r, ia)
        }),
        inverse_filter(13, ib, ig, ir, ia) == ({
            let b = ib + ig;
            let r = ir + b;
            let g = ig + r;
            (b, g, r, ia)
        }),
        inverse_filter(14, ib, ig, ir, ia) == ({
            let g = ig + ir;
            let b = ib + g;
            let r = ir + b;
            (b, g, r, ia)
        }),
        inverse_filter(15, ib, ig, ir, ia) == (ib, ig + 2 * ib, ir + 2 * ib, ia),
{
    reveal(inverse_filter);
}

/// The decoder's inverse undoes each filter: from the filtered residuals of
/// a pixel it gets back the residuals before filtering, modulo 256.
pub proof fn lemma_filter_inverse(code: int, b: i8, g: i8, r: i8, a: i8)
    requires
        0 <= code < 16,
    ensures
        ({
            let (fb, fg, fr) = filter8(code, b, g, r);
            let (xb, xg, xr, xa) = inverse_filter(code, fb as int, fg as int, fr as int, a as int);
            &&& (xb - b) % 256 == 0
            &&& (xg - g) % 256 == 0
            &&& (xr - r) % 256 == 0
            &&& xa == a
        }),
{
    reveal(inverse_filter);
    let (x, y, z) = filter_fwd(code, b as int, g as int, r as int);
    lemma_wrap8(x, 0);
    lemma_wrap8(y, 0);
    lemma_wrap8(z, 0);
    let qx = (x + 128) / 256;
    let qy = (y + 128) / 256;
    let qz = (z + 128) / 256;
    let (xb, xg, xr, xa) = inverse_filter(code, wrap8(x), wrap8(y), wrap8(z), a as int);
    let (lb, lg, lr, la) = inverse_filter(code, qx, qy, qz, 0);
    assert(xb - b == (-lb) * 256 && xg - g == (-lg) * 256 && xr - r == (-lr) * 256);
    vstd::arithmetic::div_mod::lemma_mod_multiples_basic(-lb, 256);
    vstd::arithmetic::div_mod::lemma_mod_multiples_basic(-lg, 256);
    vstd::arithmetic::div_mod::lemma_mod_multiples_basic(-lr, 256);
}

/// Channel `c` (0 blue, 1 green, 2 red) of the first `size` pixels after
/// filter `code`, the residual bytes read as signed bytes.
pub open spec fn filtered_channel(code: int, b: Seq<u8>, g: Seq<u8>, r: Seq<u8>, size: int, c: int) -> Seq<i8> {
    Seq::new(
        size as nat,
        |i: int|
            {
                let f = filter8(code, b[i] as i8, g[i] as i8, r[i] as i8);
                if c == 0 {
                    f.0
                } else if c == 1 {
                    f.1
                } else {
                    f.2
                }
            },
    )
}

/// The estimated size of the coding of one channel.
pub open spec fn channel_bits(buf: Seq<i8>) -> int {
    try_flush(try_run((1int, 0int, 3int, 0int, false), buf)).0
}

/// The estimated size of the three channels after filter `code`.
pub open spec fn filter_bits(code: int, b: Seq<u8>, g: Seq<u8>, r: Seq<u8>, size: int) -> int {
    channel_bits(filtered_channel(code, b, g, r, size, 0)) + channel_bits(filtered_channel(code, b, g, r, size, 1))
        + channel_bits(filtered_channel(code, b, g, r, size, 2))
}

/// The first of the codes `0..upto` with the smallest estimate, and that
/// estimate; `(0, u32::MAX)` before any code.
pub open spec fn best_filter(b: Seq<u8>, g: Seq<u8>, r: Seq<u8>, size: int, upto: int) -> (int, int)
    decreases upto,
{
    if upto <= 0 {
        (0, u32::MAX as int)
    } else {
        let (c, m) = best_filter(b, g, r, size, upto - 1);
        let bits = filter_bits(upto - 1, b, g, r, size);
        if bits < m {
            (upto - 1, bits)
        } else {
            (c, m)
        }
    }
}

/// Estimates never shrink.
proof fn lemma_try_run_grows(st: TryState, buf: Seq<i8>)
    requires
        st.0 >= 0,
    ensures
        try_run(st, buf).0 >= st.0,
    decreases buf.len(),
{
    if buf.len() > 0 {
        lemma_try_run_grows(st, buf.drop_last());
        let s1 = try_run(st, buf.drop_last());
        let e = buf.last() as int;
        if e != 0 {
            let k = golomb_k(s1.3, s1.2);
            vstd::arithmetic::power2::lemma_pow2_pos(k as nat);
            vstd::arithmetic::div_mod::lemma_div_pos_is_pos(golomb_m(e), vstd::arithmetic::power2::pow2(k as nat) as int);
        }
    }
}

/// The estimate of a channel counts at least its flag bit.
proof fn lemma_channel_bits_pos(buf: Seq<i8>)
    ensures
        channel_bits(buf) >= 1,
{
    lemma_try_run_grows((1int, 0int, 3int, 0int, false), buf);
}

/// The chosen code is one of the codes tried.
pub proof fn lemma_best_filter_code(b: Seq<u8>, g: Seq<u8>, r: Seq<u8>, size: int, upto: int)
    requires
        upto >= 0,
    ensures
        0 <= best_filter(b, g, r, size, upto).0 < if upto > 0 { upto } else { 1 },
    decreases upto,
{
    if upto > 0 {
        lemma_best_filter_code(b, g, r, size, upto - 1);
    }
}

/// Where the first code's estimate is below `u32::MAX`, the chosen code is
/// one of those tried, its estimate is the smallest of theirs, and every
/// earlier code's estimate is larger.
pub proof fn lemma_best_filter_min(b: Seq<u8>, g: Seq<u8>, r: Seq<u8>, size: int, upto: int)
    requires
        upto >= 1,
        filter_bits(0, b, g, r, size) < u32::MAX,
    ensures
        0 <= best_filter(b, g, r, size, upto).0 < upto,
        best_filter(b, g, r, size, upto).1 == filter_bits(best_filter(b, g, r, size, upto).0, b, g, r, size),
        forall|k: int| 0 <= k < upto ==> #[trigger] filter_bits(k, b, g, r, size) >= best_filter(b, g, r, size, upto).1,
        forall|k: int| 0 <= k < best_filter(b, g, r, size, upto).0 ==> #[trigger] filter_bits(k, b, g, r, size) > best_filter(
            b,
            g,
            r,
            size,
            upto,
        ).1,
    decreases upto,
{
    if upto > 1 {
        lemma_best_filter_min(b, g, r, size, upto - 1);
    } else {
        assert(best_filter(b, g, r, size, 0) == (0int, u32::MAX as int));
    }
}

/// The estimate for one channel, from a fresh state.
fn estimate(buf: &Vec<i8>) -> (bits: u32)
    requires
        3 * (64 + 110 * buf@.len()) <= u32::MAX,
    ensures
        bits == channel_bits(buf@),
        bits <= 64 + 110 * buf@.len(),
{
    let mut comp = TryCompress::new();
    comp.reset();
    comp.try_compress(buf.as_slice());
    proof {
        lemma_gamma_bits_len(comp.state().1 as u32);
    }
    comp.flush()
}

/// Signed copies of the first `size` residual bytes of each channel,
/// filtered with `code`.
fn filtered_copies(b: &[u8], g: &[u8], r: &[u8], size: usize, code: u32) -> (res: (Vec<i8>, Vec<i8>, Vec<i8>))
    requires
        size <= b@.len(),
        size <= g@.len(),
        size <= r@.len(),
    ensures
        res.0@ == filtered_channel(code as int, b@, g@, r@, size as int, 0),
        res.1@ == filtered_channel(code as int, b@, g@, r@, size as int, 1),
        res.2@ == filtered_channel(code as int, b@, g@, r@, size as int, 2),
{
    let mut bbuf: Vec<i8> = Vec::new();
    let mut gbuf: Vec<i8> = Vec::new();
    let mut rbuf: Vec<i8> = Vec::new();
    let mut i: usize = 0;
    while i < size
        invariant
            i <= size,
            size <= b@.len(),
            size <= g@.len(),
            size <= r@.len(),
            bbuf@.len() == i,
            gbuf@.len() == i,
            rbuf@.len() == i,
            forall|k: int| 0 <= k < i ==> bbuf@[k] == b@[k] as i8 && gbuf@[k] == g@[k] as i8 && rbuf@[k] == r@[k] as i8,
        decreases size - i,
    {
        bbuf.push(b[i] as i8);
        gbuf.push(g[i] as i8);
        rbuf.push(r[i] as i8);
        i = i + 1;
    }
    let ghost b0 = bbuf@;
    let ghost g0 = gbuf@;
    let ghost r0 = rbuf@;
    apply_color_filter(bbuf.as_mut_slice(), gbuf.as_mut_slice(), rbuf.as_mut_slice(), size, code);
    proof {
        assert forall|k: int| 0 <= k < size implies (bbuf@[k], gbuf@[k], rbuf@[k]) == filter8(code as int, b@[k] as i8, g@[k] as i8, r@[k] as i8) by {
            assert((bbuf@[k], gbuf@[k], rbuf@[k]) == filter8(code as int, b0[k], g0[k], r0[k]));
        }
        assert(bbuf@ =~= filtered_channel(code as int, b@, g@, r@, size as int, 0));
        assert(gbuf@ =~= filtered_channel(code as int, b@, g@, r@, size as int, 1));
        assert(rbuf@ =~= filtered_channel(code as int, b@, g@, r@, size as int, 2));
    }
    (bbuf, gbuf, rbuf)
}

/// Picks the filter whose coding of the first `size` pixels is estimated
/// smallest: the first code with the smallest estimate, and the estimate.
pub fn detect_color_filter(b: &[u8], g: &[u8], r: &[u8], size: usize) -> (res: (u32, u32))
    requires
        size <= b@.len(),
        size <= g@.len(),
        size <= r@.len(),
        3 * (64 + 110 * size) <= u32::MAX,
    ensures
        (res.0 as int, res.1 as int) == best_filter(b@, g@, r@, size as int, FILTER_TRY_COUNT as int),
        res.0 < FILTER_TRY_COUNT,
        res.1 == filter_bits(res.0 as int, b@, g@, r@, size as int),
        forall|k: int| 0 <= k < FILTER_TRY_COUNT ==> #[trigger] filter_bits(k, b@, g@, r@, size as int) >= res.1,
        forall|k: int| 0 <= k < res.0 ==> #[trigger] filter_bits(k, b@, g@, r@, size as int) > res.1,
{
    let mut minbits = u32::MAX;
    let mut mincode = 0u32;
    let mut code: u32 = 0;
    while code < FILTER_TRY_COUNT as u32
        invariant
            code <= FILTER_TRY_COUNT,
            size <= b@.len(),
            size <= g@.len(),
            size <= r@.len(),
            3 * (64 + 110 * size) <= u32::MAX,
            (mincode as int, minbits as int) == best_filter(b@, g@, r@, size as int, code as int),
            code > 0 ==> filter_bits(0, b@, g@, r@, size as int) < u32::MAX,
        decreases FILTER_TRY_COUNT - code,
    {
        let (bbuf, gbuf, rbuf) = filtered_copies(b, g, r, size, code);
        proof {
            lemma_channel_bits_pos(filtered_channel(code as int, b@, g@, r@, size as int, 0));
            lemma_channel_bits_pos(filtered_channel(code as int, b@, g@, r@, size as int, 1));
            lemma_channel_bits_pos(filtered_channel(code as int, b@, g@, r@, size as int, 2));
        }
        let mut bits: u32 = estimate(&bbuf);
        if minbits < bits {
            code = code + 1;
            continue;
        }
        bits = bits + estimate(&gbuf);
        if minbits < bits {
            code = code + 1;
            continue;
        }
        bits = bits + estimate(&rbuf);
        proof {
            assert(3 * (64 + 110 * size) < u32::MAX);
            assert(bits == filter_bits(code as int, b@, g@, r@, size as int));
        }
        if bits < minbits {
            minbits = bits;
            mincode = code;
        }
        code = code + 1;
    }
    proof {
        lemma_best_filter_min(b@, g@, r@, size as int, FILTER_TRY_COUNT as int);
    }
    (mincode, minbits)
}

} // verus!
