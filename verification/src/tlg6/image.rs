//! The image model behind TLG6: each pixel as a packed word of four
//! channels (blue in the low byte), its prediction from the pixels to its
//! left and above, the residuals that the coder stores for it, and where a
//! block row keeps them.

use vstd::prelude::*;
use super::decode::{end_col, first_col, le32_or_zero, lemma_pack4, line_pixel, pack4, predict_word, residual_word, slot_of, LineParams};
use super::filter::{filter8, inverse_filter, lemma_filter_inverse};
use super::packed::{lane, med_lane};
use super::predict::{med, spec_pixel_channel};
use super::golomb::{golomb_bits, holds_bits, holds_golomb};
use super::bitstream::{reader_bit, stream_bit};
use super::{ceil_div8, chunk_len, lzss_train, tlg6_decode_spec, x_blocks};
use crate::slide::lz_decode;
use super::encode::well_chunked;
use crate::bytes::le_u32_at;

verus! {

/// The word of a pixel outside the image (left of the first column or
/// above the first line): all channels 0, but an opaque alpha for RGB.
pub open spec fn base_word(colors: int) -> u32 {
    if colors == 3 {
        0xff00_0000
    } else {
        0
    }
}

/// Channel `ch` of the word of pixel `(x, y)`: the image's channel where it
/// has one, else the channel of `base_word`.
pub open spec fn target_lane(img: Seq<u8>, w: int, colors: int, x: int, y: int, ch: int) -> int {
    if ch < colors {
        spec_pixel_channel(img, x, y, w, colors, ch) as int
    } else if colors == 3 && ch == 3 {
        255
    } else {
        0
    }
}

/// The word of pixel `(x, y)`.
pub open spec fn target_word(img: Seq<u8>, w: int, colors: int, x: int, y: int) -> u32 {
    pack4(
        target_lane(img, w, colors, x, y, 0),
        target_lane(img, w, colors, x, y, 1),
        target_lane(img, w, colors, x, y, 2),
        target_lane(img, w, colors, x, y, 3),
    )
}

/// The word a prediction sees at `(x, y)`: `base_word` outside the image.
pub open spec fn nb_word(img: Seq<u8>, w: int, colors: int, x: int, y: int) -> u32 {
    if x < 0 || y < 0 {
        base_word(colors)
    } else {
        target_word(img, w, colors, x, y)
    }
}

/// The prediction of channel `ch` of pixel `(x, y)` from its left, upper
/// and upper-left neighbours: the median edge detector where `med` holds,
/// else the average of left and upper, rounded up.
pub open spec fn pred_lane(med: bool, img: Seq<u8>, w: int, colors: int, x: int, y: int, ch: int) -> int {
    let p = nb_word(img, w, colors, x - 1, y);
    let u = nb_word(img, w, colors, x, y - 1);
    let up = nb_word(img, w, colors, x - 1, y - 1);
    if med {
        med_lane(p, u, up, ch as u32)
    } else {
        (lane(p, ch as u32) + lane(u, ch as u32) + 1) / 2
    }
}

/// The prediction residual of channel `ch` of pixel `(x, y)`, as a byte.
#[verifier::opaque]
pub open spec fn res_byte(med: bool, img: Seq<u8>, w: int, colors: int, x: int, y: int, ch: int) -> int {
    (target_lane(img, w, colors, x, y, ch) - pred_lane(med, img, w, colors, x, y, ch)) % 256
}

/// A byte read as a signed byte.
pub open spec fn as_i8(v: int) -> i8 {
    (if v < 128 {
        v
    } else {
        v - 256
    }) as i8
}

/// What the coder stores in channel `c` for pixel `(x, y)` of a block whose
/// filter byte is `f` (twice the filter code, plus 1 for the average
/// prediction): the residuals, blue, green and red through the filter.
pub open spec fn stored_res(f: int, img: Seq<u8>, w: int, colors: int, x: int, y: int, c: int) -> i8 {
    let med = f % 2 == 0;
    let rb = as_i8(res_byte(med, img, w, colors, x, y, 0));
    let rg = as_i8(res_byte(med, img, w, colors, x, y, 1));
    let rr = as_i8(res_byte(med, img, w, colors, x, y, 2));
    let ra = as_i8(res_byte(med, img, w, colors, x, y, 3));
    if colors >= 3 && c < 3 {
        let t = filter8(f / 2, rb, rg, rr);
        if c == 0 {
            t.0
        } else if c == 1 {
            t.1
        } else {
            t.2
        }
    } else if c == 0 {
        rb
    } else if c == 3 {
        ra
    } else {
        0
    }
}

/// A filter byte that the coder can produce for an image of `colors`
/// channels: a filter code below 16, and no filter for gray images.
pub open spec fn code_ok(f: int, colors: int) -> bool {
    0 <= f < 32 && (colors < 3 ==> f < 2)
}

/// The residual slot of pixel slot `k` holds what the coder stores for
/// pixel `(x, y)`: its channels, 0 in the channels the image lacks.
pub open spec fn slot_holds(pb: Seq<i8>, k: int, f: int, img: Seq<u8>, w: int, colors: int, x: int, y: int) -> bool {
    &&& 0 <= k
    &&& 4 * k + 4 <= pb.len()
    &&& forall|ch: int| 0 <= ch < 4 ==> #[trigger] pb[4 * k + ch] == (if ch < colors {
        stored_res(f, img, w, colors, x, y, ch)
    } else {
        0i8
    })
}

proof fn lemma_pack4_lanes(l0: int, l1: int, l2: int, l3: int)
    requires
        0 <= l0 < 256,
        0 <= l1 < 256,
        0 <= l2 < 256,
        0 <= l3 < 256,
    ensures
        lane(pack4(l0, l1, l2, l3), 0) == l0,
        lane(pack4(l0, l1, l2, l3), 1) == l1,
        lane(pack4(l0, l1, l2, l3), 2) == l2,
        lane(pack4(l0, l1, l2, l3), 3) == l3,
{
    lemma_pack4(pack4(l0, l1, l2, l3), l0 as u32, l1 as u32, l2 as u32, l3 as u32);
}

/// The channels of a pixel's word.
pub proof fn lemma_target_lanes(img: Seq<u8>, w: int, colors: int, x: int, y: int)
    ensures
        forall|ch: int| 0 <= ch < 4 ==> #[trigger] lane(target_word(img, w, colors, x, y), ch as u32) == target_lane(
            img,
            w,
            colors,
            x,
            y,
            ch,
        ),
        forall|ch: int| 0 <= ch < 4 ==> 0 <= #[trigger] target_lane(img, w, colors, x, y, ch) < 256,
{
    lemma_pack4_lanes(
        target_lane(img, w, colors, x, y, 0),
        target_lane(img, w, colors, x, y, 1),
        target_lane(img, w, colors, x, y, 2),
        target_lane(img, w, colors, x, y, 3),
    );
}

/// The channels of the outside word.
pub proof fn lemma_base_lanes(colors: int)
    ensures
        forall|ch: int| 0 <= ch < 4 ==> #[trigger] lane(base_word(colors), ch as u32) == (if colors == 3 && ch == 3 {
            255int
        } else {
            0int
        }),
{
    assert(lane(0xff00_0000u32, 0) == 0 && lane(0xff00_0000u32, 1) == 0 && lane(0xff00_0000u32, 2) == 0 && lane(
        0xff00_0000u32,
        3,
    ) == 255) by (bit_vector);
    assert(lane(0u32, 0) == 0 && lane(0u32, 1) == 0 && lane(0u32, 2) == 0 && lane(0u32, 3) == 0) by (bit_vector);
}

/// The channels of the word a prediction sees.
pub proof fn lemma_nb_lanes(img: Seq<u8>, w: int, colors: int, x: int, y: int)
    ensures
        forall|ch: int| 0 <= ch < 4 ==> #[trigger] lane(nb_word(img, w, colors, x, y), ch as u32) == (if x < 0 || y < 0 {
            if colors == 3 && ch == 3 {
                255int
            } else {
                0int
            }
        } else {
            target_lane(img, w, colors, x, y, ch)
        }),
{
    lemma_target_lanes(img, w, colors, x, y);
    lemma_base_lanes(colors);
}

/// A byte's signed reading is the byte modulo 256.
proof fn lemma_as_i8(v: int)
    requires
        0 <= v < 256,
    ensures
        (as_i8(v) as int) % 256 == v,
        -128 <= as_i8(v) < 128,
{
}

/// The residual channel `ch` that the decoder reads back from a slot that
/// holds the coder's residuals for pixel `(x, y)`.
proof fn lemma_residual_lanes(pb: Seq<i8>, k: int, f: int, img: Seq<u8>, w: int, colors: int, x: int, y: int)
    requires
        colors == 1 || colors == 3 || colors == 4,
        code_ok(f, colors),
        slot_holds(pb, k, f, img, w, colors, x, y),
    ensures
        forall|ch: int| 0 <= ch < 4 ==> #[trigger] lane(residual_word(pb, k, f / 2), ch as u32) == (if ch < colors {
            res_byte(f % 2 == 0, img, w, colors, x, y, ch)
        } else {
            0int
        }),
{
    reveal(res_byte);
    let med = f % 2 == 0;
    let rb = as_i8(res_byte(med, img, w, colors, x, y, 0));
    let rg = as_i8(res_byte(med, img, w, colors, x, y, 1));
    let rr = as_i8(res_byte(med, img, w, colors, x, y, 2));
    let ra = as_i8(res_byte(med, img, w, colors, x, y, 3));
    let b0 = pb[4 * k];
    let g0 = pb[4 * k + 1];
    let r0 = pb[4 * k + 2];
    let a0 = pb[4 * k + 3];
    assert(b0 == pb[4 * k + 0]);
    let (xb, xg, xr, xa) = inverse_filter(f / 2, b0 as int, g0 as int, r0 as int, a0 as int);
    assert(0 <= res_byte(med, img, w, colors, x, y, 0) < 256);
    assert(0 <= res_byte(med, img, w, colors, x, y, 1) < 256);
    assert(0 <= res_byte(med, img, w, colors, x, y, 2) < 256);
    assert(0 <= res_byte(med, img, w, colors, x, y, 3) < 256);
    lemma_as_i8(res_byte(med, img, w, colors, x, y, 0));
    lemma_as_i8(res_byte(med, img, w, colors, x, y, 1));
    lemma_as_i8(res_byte(med, img, w, colors, x, y, 2));
    lemma_as_i8(res_byte(med, img, w, colors, x, y, 3));
    if colors >= 3 {
        lemma_filter_inverse(f / 2, rb, rg, rr, a0);
        assert((xb - rb) % 256 == 0 && (xg - rg) % 256 == 0 && (xr - rr) % 256 == 0 && xa == a0);
        assert(xb % 256 == res_byte(med, img, w, colors, x, y, 0)) by {
            vstd::arithmetic::div_mod::lemma_fundamental_div_mod(xb - rb, 256);
            vstd::arithmetic::div_mod::lemma_fundamental_div_mod(rb as int, 256);
            vstd::arithmetic::div_mod::lemma_mod_add_multiples_vanish(rb as int, 256);
            vstd::arithmetic::div_mod::lemma_mod_multiples_vanish((xb - rb) / 256, rb as int, 256);
        }
        assert(xg % 256 == res_byte(med, img, w, colors, x, y, 1)) by {
            vstd::arithmetic::div_mod::lemma_fundamental_div_mod(xg - rg, 256);
            vstd::arithmetic::div_mod::lemma_mod_multiples_vanish((xg - rg) / 256, rg as int, 256);
        }
        assert(xr % 256 == res_byte(med, img, w, colors, x, y, 2)) by {
            vstd::arithmetic::div_mod::lemma_fundamental_div_mod(xr - rr, 256);
            vstd::arithmetic::div_mod::lemma_mod_multiples_vanish((xr - rr) / 256, rr as int, 256);
        }
    } else {
        reveal(inverse_filter);
        assert(f / 2 == 0);
    }
    lemma_pack4_lanes(xb % 256, xg % 256, xr % 256, xa % 256);
}

/// The decoder's prediction from the pixels left of and above `(x, y)`,
/// plus the residuals the coder stored for it, gives the pixel back.
pub proof fn lemma_pixel_back(pb: Seq<i8>, k: int, f: int, img: Seq<u8>, w: int, colors: int, x: int, y: int)
    requires
        colors == 1 || colors == 3 || colors == 4,
        code_ok(f, colors),
        slot_holds(pb, k, f, img, w, colors, x, y),
        0 <= x,
        0 <= y,
    ensures
        predict_word(
            f % 2 == 0,
            nb_word(img, w, colors, x - 1, y),
            nb_word(img, w, colors, x, y - 1),
            nb_word(img, w, colors, x - 1, y - 1),
            residual_word(pb, k, f / 2),
        ) == target_word(img, w, colors, x, y),
{
    reveal(res_byte);
    let med = f % 2 == 0;
    let p = nb_word(img, w, colors, x - 1, y);
    let u = nb_word(img, w, colors, x, y - 1);
    let up = nb_word(img, w, colors, x - 1, y - 1);
    let rw = residual_word(pb, k, f / 2);
    lemma_residual_lanes(pb, k, f, img, w, colors, x, y);
    lemma_nb_lanes(img, w, colors, x - 1, y);
    lemma_nb_lanes(img, w, colors, x, y - 1);
    lemma_nb_lanes(img, w, colors, x - 1, y - 1);
    lemma_target_lanes(img, w, colors, x, y);
    assert forall|ch: int| 0 <= ch < 4 implies (pred_lane(med, img, w, colors, x, y, ch) + lane(rw, ch as u32)) % 256
        == target_lane(img, w, colors, x, y, ch) by {
        let t = target_lane(img, w, colors, x, y, ch);
        let pr = pred_lane(med, img, w, colors, x, y, ch);
        if ch < colors {
            assert(lane(rw, ch as u32) == (t - pr) % 256);
            assert((pr + (t - pr) % 256) % 256 == t) by {
                vstd::arithmetic::div_mod::lemma_add_mod_noop_right(pr, t - pr, 256);
                vstd::arithmetic::div_mod::lemma_small_mod(t as nat, 256);
            }
        } else {
            let bl = if colors == 3 && ch == 3 { 255int } else { 0int };
            assert(lane(p, ch as u32) == bl && lane(u, ch as u32) == bl && lane(up, ch as u32) == bl);
            assert(t == bl);
        }
    }
    assert(pred_lane(med, img, w, colors, x, y, 0) == (if med { med_lane(p, u, up, 0) } else { (lane(p, 0) + lane(u, 0) + 1) / 2 }));
    assert(pred_lane(med, img, w, colors, x, y, 1) == (if med { med_lane(p, u, up, 1) } else { (lane(p, 1) + lane(u, 1) + 1) / 2 }));
    assert(pred_lane(med, img, w, colors, x, y, 2) == (if med { med_lane(p, u, up, 2) } else { (lane(p, 2) + lane(u, 2) + 1) / 2 }));
    assert(pred_lane(med, img, w, colors, x, y, 3) == (if med { med_lane(p, u, up, 3) } else { (lane(p, 3) + lane(u, 3) + 1) / 2 }));
}

/// The width of block `i` of a line `width` pixels wide.
pub open spec fn block_w(width: int, i: int) -> int {
    if width - 8 * i > 8 {
        8
    } else {
        width - 8 * i
    }
}

/// Where block `i` (of width `bw`, in the block row of lines `y..y + bh`)
/// keeps column `t` of line `yy`: rows top to bottom in even blocks and
/// bottom to top in odd ones, each row forwards on even lines and backwards
/// on odd ones.
pub open spec fn blk_pos(t: int, yy: int, y: int, bh: int, bw: int, i: int) -> int {
    (if i % 2 == 0 {
        yy - y
    } else {
        y + bh - 1 - yy
    }) * bw + (if yy % 2 == 0 {
        t
    } else {
        bw - 1 - t
    })
}

/// Where a block row of lines `y..y + bh` keeps pixel `(x, yy)`: the
/// blocks one after another, each as `blk_pos` orders it.
pub open spec fn enc_pos(x: int, yy: int, y: int, bh: int, width: int) -> int {
    8 * bh * (x / 8) + blk_pos(x % 8, yy, y, bh, block_w(width, x / 8), x / 8)
}

/// The residual slots of a block row hold, for each of its pixels, what the
/// coder stores under the filter byte of the pixel's block (`ft`, one byte
/// per block).
pub open spec fn row_slots_hold(
    pb: Seq<i8>,
    ft: Seq<u8>,
    img: Seq<u8>,
    w: int,
    colors: int,
    y: int,
    bh: int,
) -> bool {
    forall|x: int, yy: int|
        0 <= x < w && y <= yy < y + bh ==> #[trigger] slot_holds(
            pb,
            enc_pos(x, yy, y, bh, w),
            ft[x / 8] as int,
            img,
            w,
            colors,
            x,
            yy,
        )
}

/// The decoder's residual slot of column `c` of line `yy` is where the
/// coder keeps that pixel.
pub proof fn lemma_slot_pos(c: int, yy: int, y: int, bh: int, width: int, start: int, oddskip: int, fwd: bool)
    requires
        0 <= c < width,
        y <= yy < y + bh,
        y % 2 == 0,
        start == block_w(width, c / 8) * (yy - y),
        oddskip == (y + bh - 1 - yy) - (yy - y),
        fwd == (yy % 2 == 0),
    ensures
        start + slot_of(c, width, 8 * bh, oddskip, fwd) == enc_pos(c, yy, y, bh, width),
        slot_of(c, width, 8 * bh, oddskip, fwd) >= 0,
{
    let i = c / 8;
    let w = block_w(width, i);
    assert(1 <= w <= 8);
    if i % 2 == 1 {
        assert(w * (yy - y) + oddskip * w == (y + bh - 1 - yy) * w) by (nonlinear_arith)
            requires
                oddskip == (y + bh - 1 - yy) - (yy - y),
        ;
        assert(8 * bh * i + oddskip * w >= 0) by (nonlinear_arith)
            requires
                oddskip == (y + bh - 1 - yy) - (yy - y),
                y <= yy < y + bh,
                1 <= w <= 8,
                i >= 1,
        ;
    } else {
        assert(8 * bh * i >= 0) by (nonlinear_arith)
            requires
                i >= 0,
                bh >= 1,
        ;
        assert(w * (yy - y) == (yy - y) * w) by (nonlinear_arith);
    }
    assert(8 * bh * i == (8 * bh) * i) by (nonlinear_arith);
}

/// Slot `k` of residuals that start at slot `s` is slot `s + k`.
proof fn lemma_residual_skip(pb: Seq<i8>, s: int, k: int, ft: int)
    requires
        0 <= s,
        4 * s <= pb.len(),
        0 <= k,
    ensures
        residual_word(pb.skip(4 * s), k, ft) == residual_word(pb, s + k, ft),
{
    let q = pb.skip(4 * s);
    if 4 * k + 4 <= q.len() {
        assert(q[4 * k] == pb[4 * (s + k)]);
        assert(q[4 * k + 1] == pb[4 * (s + k) + 1]);
        assert(q[4 * k + 2] == pb[4 * (s + k) + 2]);
        assert(q[4 * k + 3] == pb[4 * (s + k) + 3]);
    }
}

/// A line reconstruction gives back the image's line `yy`: where the line
/// above reads as the image's line `yy - 1` (or the outside word), the
/// residual slots hold what the coder stored, and the pixel left of the
/// first column and the one above it are the image's.
pub proof fn lemma_line_back(
    lp: LineParams,
    prev: Seq<u8>,
    ft: Seq<u8>,
    pb: Seq<i8>,
    start: int,
    bwc: int,
    p0: u32,
    up0: u32,
    img: Seq<u8>,
    colors: int,
    yy: int,
    y: int,
    bh: int,
    c: int,
)
    requires
        colors == 1 || colors == 3 || colors == 4,
        y % 2 == 0,
        0 <= y <= yy < y + bh,
        lp.skip == 8 * bh,
        lp.oddskip == (y + bh - 1 - yy) - (yy - y),
        lp.fwd == (yy % 2 == 0),
        first_col(lp) <= c < end_col(lp),
        end_col(lp) <= lp.width,
        forall|c2: int| first_col(lp) <= c2 < end_col(lp) ==> #[trigger] block_w(lp.width as int, c2 / 8) == bwc,
        start == bwc * (yy - y),
        0 <= start,
        4 * start <= pb.len(),
        row_slots_hold(pb, ft, img, lp.width as int, colors, y, bh),
        forall|i: int| 0 <= i <= (end_col(lp) - 1) / 8 ==> code_ok(#[trigger] ft[i] as int, colors),
        (end_col(lp) - 1) / 8 < ft.len(),
        forall|c2: int| 0 <= c2 < lp.width ==> #[trigger] le32_or_zero(prev, 4 * c2) == nb_word(img, lp.width as int, colors, c2, yy - 1),
        p0 == nb_word(img, lp.width as int, colors, first_col(lp) - 1, yy),
        up0 == nb_word(img, lp.width as int, colors, first_col(lp) - 1, yy - 1),
    ensures
        line_pixel(lp, prev, ft, pb.skip(4 * start), p0, up0, c) == target_word(img, lp.width as int, colors, c, yy),
    decreases c - first_col(lp),
{
    let w = lp.width as int;
    if c > first_col(lp) {
        lemma_line_back(lp, prev, ft, pb, start, bwc, p0, up0, img, colors, yy, y, bh, c - 1);
    }
    assert(0 <= first_col(lp));
    let k = slot_of(c, w, lp.skip as int, lp.oddskip as int, lp.fwd);
    assert(block_w(w, c / 8) == bwc);
    lemma_slot_pos(c, yy, y, bh, w, start, lp.oddskip as int, lp.fwd);
    assert(start + k == enc_pos(c, yy, y, bh, w));
    assert(slot_holds(pb, enc_pos(c, yy, y, bh, w), ft[c / 8] as int, img, w, colors, c, yy));
    lemma_residual_skip(pb, start, k, ft[c / 8] as int / 2);
    assert(c / 8 <= (end_col(lp) - 1) / 8);
    lemma_pixel_back(pb, enc_pos(c, yy, y, bh, w), ft[c / 8] as int, img, w, colors, c, yy);
}

/// A coding's bytes as the decoder reads them: followed by five zero bytes.
pub open spec fn padded(s: Seq<u8>) -> Seq<u8> {
    s + seq![0u8, 0u8, 0u8, 0u8, 0u8]
}

/// The channel coding at `q` (a four-byte bit length, then its bytes) holds
/// the Golomb coding of the `count` residuals `vals`.
pub open spec fn chunk_holds(data: Seq<u8>, q: int, vals: Seq<i8>, count: nat) -> bool {
    holds_golomb(padded(data.subrange(q + 4, q + 4 + chunk_len(le_u32_at(data, q)))), 0, vals, count)
}

/// Where the `k`-th channel coding after the one at `pos` starts.
pub open spec fn chan_walk(data: Seq<u8>, pos: int, k: nat) -> int
    decreases k,
{
    if k == 0 {
        pos
    } else {
        let q = chan_walk(data, pos, (k - 1) as nat);
        q + 4 + chunk_len(le_u32_at(data, q))
    }
}

/// The number of lines of block row `row` of an image `h` lines high.
pub open spec fn row_height(h: int, row: int) -> int {
    if h - 8 * row < 8 {
        h - 8 * row
    } else {
        8
    }
}

/// Channel `c` of block row `row`: the residuals `vals`, in the order the
/// coder keeps them (see `enc_pos`), are what the coder stores for each
/// pixel of the row under its block's filter byte (`ft` holds the image's
/// filter bytes, one per block, block row after block row).
pub open spec fn row_vals_ok(
    vals: Seq<i8>,
    img: Seq<u8>,
    w: int,
    h: int,
    colors: int,
    ft: Seq<u8>,
    row: int,
    c: int,
) -> bool {
    let y = 8 * row;
    let bh = row_height(h, row);
    &&& vals.len() == bh * w
    &&& forall|x: int, yy: int|
        0 <= x < w && y <= yy < y + bh ==> #[trigger] vals[enc_pos(x, yy, y, bh, w)] == stored_res(
            ft[row * x_blocks(w) + x / 8] as int,
            img,
            w,
            colors,
            x,
            yy,
            c,
        )
}

/// The channel coding at `q` holds the coding of channel `c`'s residuals of
/// block row `row`.
pub open spec fn row_chunk_ok(
    data: Seq<u8>,
    q: int,
    img: Seq<u8>,
    w: int,
    h: int,
    colors: int,
    ft: Seq<u8>,
    row: int,
    c: int,
) -> bool {
    exists|vals: Seq<i8>|
        #![trigger row_vals_ok(vals, img, w, h, colors, ft, row, c)]
        chunk_holds(data, q, vals, (row_height(h, row) * w) as nat) && row_vals_ok(vals, img, w, h, colors, ft, row, c)
}

/// The `c`-th channel coding of block row `row`, counted from `start`,
/// holds the coding of that channel's residuals.
pub open spec fn chunk_coded(
    data: Seq<u8>,
    start: int,
    img: Seq<u8>,
    w: int,
    h: int,
    colors: int,
    ft: Seq<u8>,
    row: int,
    c: int,
) -> bool {
    row_chunk_ok(data, chan_walk(data, start, (row * colors + c) as nat), img, w, h, colors, ft, row, c)
}

/// `data` is a TLG6 stream of the raw pixels `img` (`colors` bytes per
/// pixel, red first): a stream the decoder accepts, whose filter bytes are
/// ones the coder makes, and whose channel codings hold, block row after
/// block row, the residuals that the coder stores for the image's pixels.
#[verifier::opaque]
pub open spec fn tlg6_coded(data: Seq<u8>, img: Seq<u8>) -> bool {
    tlg6_decode_spec(data) is Ok && {
        let colors = data[11] as int;
        let w = le_u32_at(data, 15);
        let h = le_u32_at(data, 19);
        let fs = le_u32_at(data, 27);
        let ft = lz_decode(data.subrange(31, 31 + fs), lzss_train(), 0).0;
        &&& img.len() >= w * h * colors
        &&& forall|k: int| 0 <= k < ft.len() ==> code_ok(#[trigger] ft[k] as int, colors)
        &&& forall|row: int, c: int|
            0 <= row < ceil_div8(h) && 0 <= c < colors ==> #[trigger] chunk_coded(data, 31 + fs, img, w, h, colors, ft, row, c)
    }
}

/// Walking `a` codings, then `b` more, is walking `a + b`.
pub proof fn lemma_chan_walk_add(data: Seq<u8>, pos: int, a: nat, b: nat)
    ensures
        chan_walk(data, chan_walk(data, pos, a), b) == chan_walk(data, pos, a + b),
    decreases b,
{
    if b > 0 {
        lemma_chan_walk_add(data, pos, a, (b - 1) as nat);
        assert((a + b - 1) as nat == a + (b - 1) as nat);
    }
}

/// Every pixel of a block row has its place among the row's residuals.
pub proof fn lemma_enc_pos_range(x: int, yy: int, y: int, bh: int, w: int)
    requires
        0 <= x < w,
        y <= yy < y + bh,
    ensures
        0 <= enc_pos(x, yy, y, bh, w) < bh * w,
{
    let i = x / 8;
    let t = x % 8;
    let bw = block_w(w, i);
    assert(0 <= t < bw <= 8);
    assert(8 * i + bw <= w);
    let r = if i % 2 == 0 { yy - y } else { y + bh - 1 - yy };
    assert(0 <= r < bh);
    assert(0 <= r * bw + bw <= bh * bw) by (nonlinear_arith)
        requires
            0 <= r < bh,
            0 <= bw,
    ;
    assert(8 * bh * i + bh * bw <= bh * w) by (nonlinear_arith)
        requires
            8 * i + bw <= w,
            bh >= 0,
    ;
    assert(8 * bh * i >= 0) by (nonlinear_arith)
        requires
            i >= 0,
            bh >= 0,
    ;
}

/// Codings that lie in `a` are walked the same in `a` followed by more.
pub proof fn lemma_walk_prefix(a: Seq<u8>, b: Seq<u8>, k: nat)
    requires
        forall|j: nat| j < k ==> 0 <= #[trigger] chan_walk(a, 0, j) && chan_walk(a, 0, j) + 4 <= a.len(),
    ensures
        chan_walk(a + b, 0, k) == chan_walk(a, 0, k),
    decreases k,
{
    if k > 0 {
        let j = (k - 1) as nat;
        lemma_walk_prefix(a, b, j);
        let q = chan_walk(a, 0, j);
        assert(0 <= q && q + 4 <= a.len());
        assert((a + b)[q] == a[q] && (a + b)[q + 1] == a[q + 1] && (a + b)[q + 2] == a[q + 2] && (a + b)[q + 3] == a[q + 3]);
    }
}

/// Codings that lie in `b` are walked the same in `a` followed by `b`,
/// `a.len()` bytes further on.
pub proof fn lemma_walk_shift(a: Seq<u8>, b: Seq<u8>, k: nat)
    requires
        forall|j: nat| j < k ==> 0 <= #[trigger] chan_walk(b, 0, j) && chan_walk(b, 0, j) + 4 <= b.len(),
    ensures
        chan_walk(a + b, a.len() as int, k) == a.len() + chan_walk(b, 0, k),
    decreases k,
{
    if k > 0 {
        let j = (k - 1) as nat;
        lemma_walk_shift(a, b, j);
        let q = chan_walk(b, 0, j);
        assert(0 <= q && q + 4 <= b.len());
        let n = a.len() as int;
        assert((a + b)[n + q] == b[q] && (a + b)[n + q + 1] == b[q + 1] && (a + b)[n + q + 2] == b[q + 2] && (a + b)[n + q + 3]
            == b[q + 3]);
    }
}

/// A coding that lies in `a` holds the same in `a` followed by more.
pub proof fn lemma_holds_prefix(a: Seq<u8>, b: Seq<u8>, q: int, vals: Seq<i8>, n: nat)
    requires
        0 <= q,
        q + 4 <= a.len(),
        q + 4 + chunk_len(le_u32_at(a, q)) <= a.len(),
    ensures
        chunk_holds(a + b, q, vals, n) == chunk_holds(a, q, vals, n),
{
    assert((a + b)[q] == a[q] && (a + b)[q + 1] == a[q + 1] && (a + b)[q + 2] == a[q + 2] && (a + b)[q + 3] == a[q + 3]);
    let cl = chunk_len(le_u32_at(a, q));
    assert((a + b).subrange(q + 4, q + 4 + cl) =~= a.subrange(q + 4, q + 4 + cl));
}

/// A coding that lies in `b` holds the same in `a` followed by `b`,
/// `a.len()` bytes further on.
pub proof fn lemma_holds_shift(a: Seq<u8>, b: Seq<u8>, q: int, vals: Seq<i8>, n: nat)
    requires
        0 <= q,
        q + 4 <= b.len(),
        q + 4 + chunk_len(le_u32_at(b, q)) <= b.len(),
    ensures
        chunk_holds(a + b, a.len() + q, vals, n) == chunk_holds(b, q, vals, n),
{
    let m = a.len() as int;
    assert((a + b)[m + q] == b[q] && (a + b)[m + q + 1] == b[q + 1] && (a + b)[m + q + 2] == b[q + 2] && (a + b)[m + q + 3]
        == b[q + 3]);
    let cl = chunk_len(le_u32_at(b, q));
    assert((a + b).subrange(m + q + 4, m + q + 4 + cl) =~= b.subrange(q + 4, q + 4 + cl));
}

/// The first of well-formed codings, and the rest.
proof fn lemma_chunk_step(m: Seq<u8>, n: nat)
    requires
        well_chunked(m, n),
        n > 0,
    ensures
        4 + chunk_len(le_u32_at(m, 0)) <= m.len(),
        well_chunked(m.skip(4 + chunk_len(le_u32_at(m, 0))), (n - 1) as nat),
        m == m.take(4 + chunk_len(le_u32_at(m, 0))) + m.skip(4 + chunk_len(le_u32_at(m, 0))),
        chan_walk(m, 0, 1) == 4 + chunk_len(le_u32_at(m, 0)),
{
    let c0 = 4 + chunk_len(le_u32_at(m, 0));
    assert(m =~= m.take(c0) + m.skip(c0));
    assert(chan_walk(m, 0, 0) == 0);
}

/// Well-formed codings are walked within their bytes, to their end.
#[verifier::spinoff_prover]
pub proof fn lemma_chunk_pos(m: Seq<u8>, n: nat, j: nat)
    requires
        well_chunked(m, n),
        j <= n,
    ensures
        0 <= chan_walk(m, 0, j) <= m.len(),
        j == n ==> chan_walk(m, 0, j) == m.len(),
        j < n ==> chan_walk(m, 0, j) + 4 <= m.len() && chan_walk(m, 0, j) + 4 + chunk_len(le_u32_at(m, chan_walk(m, 0, j)))
            <= m.len(),
    decreases j,
{
    if j == 0 {
        if n > 0 {
            lemma_chunk_step(m, n);
        }
    } else {
        lemma_chunk_step(m, n);
        let c0 = 4 + chunk_len(le_u32_at(m, 0));
        let t = m.skip(c0);
        let h = m.take(c0);
        let j1 = (j - 1) as nat;
        let n1 = (n - 1) as nat;
        assert forall|i: nat| i < j1 implies 0 <= #[trigger] chan_walk(t, 0, i) && chan_walk(t, 0, i) + 4 <= t.len() by {
            lemma_chunk_pos(t, n1, i);
        }
        lemma_chunk_pos(t, n1, j1);
        lemma_walk_shift(h, t, j1);
        lemma_chan_walk_add(m, 0, 1, j1);
        let q1 = chan_walk(t, 0, j1);
        assert(h.len() == c0);
        assert(chan_walk(h + t, c0, j1) == c0 + q1);
        assert(1 + j1 == j);
        assert(chan_walk(m, 0, j) == c0 + q1);
        if j < n {
            assert(m[c0 + q1] == t[q1] && m[c0 + q1 + 1] == t[q1 + 1] && m[c0 + q1 + 2] == t[q1 + 2] && m[c0 + q1 + 3] == t[q1
                + 3]);
        }
    }
}

/// The residual of channel `c` of pixel `(x, y)` from the channel's values
/// at the pixel and its left, upper and upper-left neighbours (0 outside
/// the image).
pub proof fn lemma_res_byte(med_pred: bool, img: Seq<u8>, w: int, colors: int, x: int, y: int, c: int, pa: u8, pb: u8, pc: u8, px: u8)
    requires
        colors == 1 || colors == 3 || colors == 4,
        0 <= c < colors,
        0 <= x,
        0 <= y,
        pa == (if x > 0 { spec_pixel_channel(img, x - 1, y, w, colors, c) } else { 0u8 }),
        pb == (if y > 0 { spec_pixel_channel(img, x, y - 1, w, colors, c) } else { 0u8 }),
        pc == (if x > 0 && y > 0 { spec_pixel_channel(img, x - 1, y - 1, w, colors, c) } else { 0u8 }),
        px == spec_pixel_channel(img, x, y, w, colors, c),
    ensures
        res_byte(med_pred, img, w, colors, x, y, c) == (px - (if med_pred {
            med(pa as int, pb as int, pc as int)
        } else {
            (pa + pb + 1) / 2
        })) % 256,
{
    reveal(res_byte);
    lemma_nb_lanes(img, w, colors, x - 1, y);
    lemma_nb_lanes(img, w, colors, x, y - 1);
    lemma_nb_lanes(img, w, colors, x - 1, y - 1);
    lemma_target_lanes(img, w, colors, x, y);
    assert(lane(nb_word(img, w, colors, x - 1, y), c as u32) == pa);
    assert(lane(nb_word(img, w, colors, x, y - 1), c as u32) == pb);
    assert(lane(nb_word(img, w, colors, x - 1, y - 1), c as u32) == pc);
}

/// Every pixel of a block has its place among the block's residuals.
pub proof fn lemma_blk_pos_range(t: int, yy: int, y: int, bh: int, bw: int, i: int)
    requires
        0 <= t < bw,
        y <= yy < y + bh,
    ensures
        0 <= blk_pos(t, yy, y, bh, bw, i) < bh * bw,
{
    let r = if i % 2 == 0 { yy - y } else { y + bh - 1 - yy };
    assert(0 <= r < bh);
    assert(0 <= r * bw && r * bw + bw <= bh * bw) by (nonlinear_arith)
        requires
            0 <= r < bh,
            0 <= bw,
    ;
}

/// Channel `c` of the block row of lines `y..y + bh` (filter bytes `ft`,
/// one per block of the row): the residuals `vals`, in the order the coder
/// keeps them, are what the coder stores for each pixel of the row.
pub open spec fn local_vals_ok(vals: Seq<i8>, img: Seq<u8>, w: int, colors: int, ft: Seq<u8>, y: int, bh: int, c: int) -> bool {
    &&& vals.len() == bh * w
    &&& forall|x: int, yy: int|
        0 <= x < w && y <= yy < y + bh ==> #[trigger] vals[enc_pos(x, yy, y, bh, w)] == stored_res(
            ft[x / 8] as int,
            img,
            w,
            colors,
            x,
            yy,
            c,
        )
}

/// The channel coding at `q` holds the coding of channel `c` of the block
/// row of lines `y..y + bh`.
pub open spec fn local_chunk_ok(m: Seq<u8>, q: int, img: Seq<u8>, w: int, colors: int, ft: Seq<u8>, y: int, bh: int, c: int) -> bool {
    exists|vals: Seq<i8>|
        #![trigger local_vals_ok(vals, img, w, colors, ft, y, bh, c)]
        chunk_holds(m, q, vals, (bh * w) as nat) && local_vals_ok(vals, img, w, colors, ft, y, bh, c)
}

/// A coding still holds with the decoder's padding after it.
pub proof fn lemma_holds_pad(bytes: Seq<u8>, vals: Seq<i8>, n: nat)
    requires
        holds_golomb(bytes, 0, vals, n),
    ensures
        holds_golomb(padded(bytes), 0, vals, n),
{
    let bits = golomb_bits(vals, 0);
    let pb = padded(bytes);
    assert forall|i: int| 0 <= i < bits.len() implies #[trigger] reader_bit(pb, 0 + i) == bits[i] by {
        assert(reader_bit(bytes, 0 + i) == bits[i]);
        assert(pb[i / 8] == bytes[i / 8]);
    }
}

/// A channel coding: its bit length, then the bytes of the coding.
pub proof fn lemma_one_chunk_holds(bl: u32, bytes: Seq<u8>, vals: Seq<i8>, n: nat)
    requires
        bytes.len() == chunk_len(bl as int),
        holds_golomb(bytes, 0, vals, n),
        le_u32_at(crate::bytes::le_bytes(bl) + bytes, 0) == bl,
    ensures
        chunk_holds(crate::bytes::le_bytes(bl) + bytes, 0, vals, n),
{
    let ch = crate::bytes::le_bytes(bl) + bytes;
    assert(ch.subrange(4, 4 + chunk_len(bl as int)) =~= bytes);
    lemma_holds_pad(bytes, vals, n);
}

/// The pixels of earlier blocks come before the block `i`.
pub proof fn lemma_enc_pos_before(x: int, yy: int, y: int, bh: int, w: int, i: int)
    requires
        0 <= x < 8 * i,
        8 * i <= w,
        y <= yy < y + bh,
    ensures
        0 <= enc_pos(x, yy, y, bh, w) < 8 * bh * i,
{
    let j = x / 8;
    assert(j < i);
    assert(block_w(w, j) == 8);
    lemma_blk_pos_range(x % 8, yy, y, bh, 8, j);
    assert(8 * bh * j + bh * 8 <= 8 * bh * i) by (nonlinear_arith)
        requires
            j < i,
            bh >= 0,
    ;
    assert(8 * bh * j >= 0) by (nonlinear_arith)
        requires
            j >= 0,
            bh >= 0,
    ;
}

/// The residuals of channel `c` kept so far for the columns before `xe` of
/// the block row of lines `y..y + bh` are what the coder stores.
pub open spec fn row_part_ok(v: Seq<i8>, img: Seq<u8>, w: int, colors: int, ft: Seq<u8>, y: int, bh: int, c: int, xe: int) -> bool {
    forall|x: int, yy: int|
        0 <= x < xe && y <= yy < y + bh ==> #[trigger] v[enc_pos(x, yy, y, bh, w)] == stored_res(ft[x / 8] as int, img, w, colors, x, yy, c)
}

/// Appending the residuals of block `i` (columns `x..x + bw`) extends the
/// columns kept.
pub proof fn lemma_row_part_push(
    v: Seq<i8>,
    blk: Seq<i8>,
    img: Seq<u8>,
    w: int,
    colors: int,
    ft: Seq<u8>,
    f: u8,
    y: int,
    bh: int,
    c: int,
    x: int,
    i: int,
    bw: int,
)
    requires
        row_part_ok(v, img, w, colors, ft, y, bh, c, x),
        x == 8 * i,
        0 <= i,
        ft.len() == i,
        v.len() == 8 * bh * i,
        bw == block_w(w, i),
        1 <= bw,
        x + bw <= w,
        bh >= 1,
        blk.len() == bw * bh,
        forall|t: int, yy: int| 0 <= t < bw && y <= yy < y + bh ==> #[trigger] blk[blk_pos(t, yy, y, bh, bw, i)] == stored_res(
            f as int,
            img,
            w,
            colors,
            x + t,
            yy,
            c,
        ),
    ensures
        row_part_ok(v + blk, img, w, colors, ft.push(f), y, bh, c, x + bw),
{
    let ft2 = ft.push(f);
    assert forall|x2: int, yy: int| 0 <= x2 < x + bw && y <= yy < y + bh implies #[trigger] (v + blk)[enc_pos(x2, yy, y, bh, w)]
        == stored_res(ft2[x2 / 8] as int, img, w, colors, x2, yy, c) by {
        if x2 < x {
            lemma_enc_pos_before(x2, yy, y, bh, w, i);
            assert(x2 / 8 < i);
            assert(ft2[x2 / 8] == ft[x2 / 8]);
            let k = enc_pos(x2, yy, y, bh, w);
            assert((v + blk)[k] == v[k]);
            assert(v[enc_pos(x2, yy, y, bh, w)] == stored_res(ft[x2 / 8] as int, img, w, colors, x2, yy, c));
        } else {
            let t = x2 - x;
            assert(x2 / 8 == i && x2 % 8 == t);
            lemma_blk_pos_range(t, yy, y, bh, bw, i);
            assert(bh * bw == bw * bh) by (nonlinear_arith);
            let bp = blk_pos(t, yy, y, bh, bw, i);
            assert(enc_pos(x2, yy, y, bh, w) == v.len() + bp);
            assert((v + blk)[v.len() + bp] == blk[bp]);
            assert(blk[bp] == stored_res(f as int, img, w, colors, x + t, yy, c));
            assert(ft2[x2 / 8] == f);
        }
    }
}

/// One more channel coding after well-formed ones: the earlier codings
/// keep what they hold, and the new one holds what it held alone.
pub proof fn lemma_chunks_append(
    m: Seq<u8>,
    n: nat,
    ch: Seq<u8>,
    img: Seq<u8>,
    w: int,
    colors: int,
    ft: Seq<u8>,
    y: int,
    bh: int,
)
    requires
        well_chunked(m, n),
        well_chunked(ch, 1),
        forall|c2: int| 0 <= c2 < n ==> #[trigger] local_chunk_ok(m, chan_walk(m, 0, c2 as nat), img, w, colors, ft, y, bh, c2),
        local_chunk_ok(ch, 0, img, w, colors, ft, y, bh, n as int),
    ensures
        forall|c2: int| 0 <= c2 < n + 1 ==> #[trigger] local_chunk_ok(m + ch, chan_walk(m + ch, 0, c2 as nat), img, w, colors, ft, y, bh, c2),
{
    assert forall|c2: int| 0 <= c2 < n + 1 implies #[trigger] local_chunk_ok(m + ch, chan_walk(m + ch, 0, c2 as nat), img, w, colors, ft, y, bh, c2) by {
        if c2 < n {
            assert forall|j: nat| j < c2 as nat implies 0 <= #[trigger] chan_walk(m, 0, j) && chan_walk(m, 0, j) + 4 <= m.len() by {
                lemma_chunk_pos(m, n, j);
            }
            lemma_walk_prefix(m, ch, c2 as nat);
            lemma_chunk_pos(m, n, c2 as nat);
            let q = chan_walk(m, 0, c2 as nat);
            assert(local_chunk_ok(m, q, img, w, colors, ft, y, bh, c2));
            let vals = choose|vals: Seq<i8>|
                #![trigger local_vals_ok(vals, img, w, colors, ft, y, bh, c2)]
                chunk_holds(m, q, vals, (bh * w) as nat) && local_vals_ok(vals, img, w, colors, ft, y, bh, c2);
            lemma_holds_prefix(m, ch, q, vals, (bh * w) as nat);
            assert(local_vals_ok(vals, img, w, colors, ft, y, bh, c2));
        } else {
            lemma_chunk_pos(m, n, n);
            lemma_chunk_pos(ch, 1, 0);
            assert forall|j: nat| j < n implies 0 <= #[trigger] chan_walk(m, 0, j) && chan_walk(m, 0, j) + 4 <= m.len() by {
                lemma_chunk_pos(m, n, j);
            }
            lemma_walk_prefix(m, ch, n);
            lemma_walk_shift(m, ch, 0);
            lemma_chan_walk_add(m + ch, 0, n, 0);
            assert(chan_walk(m + ch, 0, c2 as nat) == m.len() + 0);
            let vals = choose|vals: Seq<i8>|
                #![trigger local_vals_ok(vals, img, w, colors, ft, y, bh, n as int)]
                chunk_holds(ch, 0, vals, (bh * w) as nat) && local_vals_ok(vals, img, w, colors, ft, y, bh, n as int);
            lemma_holds_shift(m, ch, 0, vals, (bh * w) as nat);
            assert(local_vals_ok(vals, img, w, colors, ft, y, bh, c2));
        }
    }
}

/// One more block row of channel codings after well-formed ones: the
/// earlier rows keep what they hold, and the new row holds its residuals.
pub proof fn lemma_stream_append(
    m: Seq<u8>,
    ch: Seq<u8>,
    img: Seq<u8>,
    w: int,
    h: int,
    colors: int,
    ft: Seq<u8>,
    frow: Seq<u8>,
    row: int,
)
    requires
        0 <= row,
        colors >= 1,
        w >= 0,
        well_chunked(m, (row * colors) as nat),
        well_chunked(ch, colors as nat),
        ft.len() == row * ceil_div8(w),
        frow.len() == ceil_div8(w),
        8 * row < h,
        forall|r2: int, c: int|
            0 <= r2 < row && 0 <= c < colors ==> #[trigger] row_chunk_ok(m, chan_walk(m, 0, (r2 * colors + c) as nat), img, w, h, colors, ft, r2, c),
        forall|c: int|
            0 <= c < colors ==> #[trigger] local_chunk_ok(ch, chan_walk(ch, 0, c as nat), img, w, colors, frow, 8 * row, row_height(h, row), c),
    ensures
        forall|r2: int, c: int|
            0 <= r2 < row + 1 && 0 <= c < colors ==> #[trigger] row_chunk_ok(
                m + ch,
                chan_walk(m + ch, 0, (r2 * colors + c) as nat),
                img,
                w,
                h,
                colors,
                ft + frow,
                r2,
                c,
            ),
{
    let n = (row * colors) as nat;
    let ft2 = ft + frow;
    assert forall|r2: int, c: int| 0 <= r2 < row + 1 && 0 <= c < colors implies #[trigger] row_chunk_ok(
        m + ch,
        chan_walk(m + ch, 0, (r2 * colors + c) as nat),
        img,
        w,
        h,
        colors,
        ft2,
        r2,
        c,
    ) by {
        let bh = row_height(h, r2);
        if r2 < row {
            let k = (r2 * colors + c) as nat;
            assert(r2 * colors + c < row * colors) by (nonlinear_arith)
                requires
                    r2 < row,
                    0 <= c < colors,
            ;
            assert(r2 * colors + c >= 0) by (nonlinear_arith)
                requires
                    r2 >= 0,
                    c >= 0,
                    colors >= 1,
            ;
            assert forall|j: nat| j < k implies 0 <= #[trigger] chan_walk(m, 0, j) && chan_walk(m, 0, j) + 4 <= m.len() by {
                lemma_chunk_pos(m, n, j);
            }
            lemma_walk_prefix(m, ch, k);
            lemma_chunk_pos(m, n, k);
            let q = chan_walk(m, 0, k);
            assert(row_chunk_ok(m, q, img, w, h, colors, ft, r2, c));
            let vals = choose|vals: Seq<i8>|
                #![trigger row_vals_ok(vals, img, w, h, colors, ft, r2, c)]
                chunk_holds(m, q, vals, (bh * w) as nat) && row_vals_ok(vals, img, w, h, colors, ft, r2, c);
            lemma_holds_prefix(m, ch, q, vals, (bh * w) as nat);
            assert forall|x: int, yy: int| 0 <= x < w && 8 * r2 <= yy < 8 * r2 + bh implies #[trigger] vals[enc_pos(x, yy, 8 * r2, bh, w)]
                == stored_res(ft2[r2 * x_blocks(w) + x / 8] as int, img, w, colors, x, yy, c) by {
                assert(x_blocks(w) == ceil_div8(w));
                assert(0 <= x / 8 < ceil_div8(w));
                assert(r2 * ceil_div8(w) + x / 8 < row * ceil_div8(w)) by (nonlinear_arith)
                    requires
                        r2 < row,
                        0 <= x / 8 < ceil_div8(w),
                ;
                assert(r2 * ceil_div8(w) + x / 8 >= 0) by (nonlinear_arith)
                    requires
                        r2 >= 0,
                        x / 8 >= 0,
                        ceil_div8(w) >= 0,
                ;
                assert(ft2[r2 * x_blocks(w) + x / 8] == ft[r2 * x_blocks(w) + x / 8]);
            }
            assert(row_vals_ok(vals, img, w, h, colors, ft2, r2, c));
        } else {
            lemma_chunk_pos(m, n, n);
            assert forall|j: nat| j < n implies 0 <= #[trigger] chan_walk(m, 0, j) && chan_walk(m, 0, j) + 4 <= m.len() by {
                lemma_chunk_pos(m, n, j);
            }
            assert forall|j: nat| j < c as nat implies 0 <= #[trigger] chan_walk(ch, 0, j) && chan_walk(ch, 0, j) + 4 <= ch.len() by {
                lemma_chunk_pos(ch, colors as nat, j);
            }
            lemma_walk_prefix(m, ch, n);
            lemma_walk_shift(m, ch, c as nat);
            lemma_chan_walk_add(m + ch, 0, n, c as nat);
            assert(n + c as nat == (r2 * colors + c) as nat);
            lemma_chunk_pos(ch, colors as nat, c as nat);
            let q = chan_walk(ch, 0, c as nat);
            assert(chan_walk(m + ch, 0, (r2 * colors + c) as nat) == m.len() + q);
            assert(local_chunk_ok(ch, q, img, w, colors, frow, 8 * row, bh, c));
            let vals = choose|vals: Seq<i8>|
                #![trigger local_vals_ok(vals, img, w, colors, frow, 8 * row, bh, c)]
                chunk_holds(ch, q, vals, (bh * w) as nat) && local_vals_ok(vals, img, w, colors, frow, 8 * row, bh, c);
            lemma_holds_shift(m, ch, q, vals, (bh * w) as nat);
            assert forall|x: int, yy: int| 0 <= x < w && 8 * r2 <= yy < 8 * r2 + bh implies #[trigger] vals[enc_pos(x, yy, 8 * r2, bh, w)]
                == stored_res(ft2[r2 * x_blocks(w) + x / 8] as int, img, w, colors, x, yy, c) by {
                assert(x_blocks(w) == ceil_div8(w));
                assert(0 <= x / 8 < ceil_div8(w));
                assert(ft2[row * ceil_div8(w) + x / 8] == frow[x / 8]);
            }
            assert(row_vals_ok(vals, img, w, h, colors, ft2, r2, c));
        }
    }
}

/// The channel codings after a header and filter table `p` are walked and
/// hold as they do on their own.
pub proof fn lemma_stream_out(
    p: Seq<u8>,
    m: Seq<u8>,
    n: nat,
    img: Seq<u8>,
    w: int,
    h: int,
    colors: int,
    ft: Seq<u8>,
    rows: int,
)
    requires
        colors >= 1,
        0 <= rows,
        n == rows * colors,
        well_chunked(m, n),
        forall|r2: int, c: int|
            0 <= r2 < rows && 0 <= c < colors ==> #[trigger] row_chunk_ok(m, chan_walk(m, 0, (r2 * colors + c) as nat), img, w, h, colors, ft, r2, c),
    ensures
        forall|r2: int, c: int|
            0 <= r2 < rows && 0 <= c < colors ==> #[trigger] chunk_coded(p + m, p.len() as int, img, w, h, colors, ft, r2, c),
{
    assert forall|r2: int, c: int| 0 <= r2 < rows && 0 <= c < colors implies #[trigger] chunk_coded(p + m, p.len() as int, img, w, h, colors, ft, r2, c) by {
        let k = (r2 * colors + c) as nat;
        assert(r2 * colors + c < rows * colors) by (nonlinear_arith)
            requires
                r2 < rows,
                0 <= c < colors,
        ;
        assert(r2 * colors + c >= 0) by (nonlinear_arith)
            requires
                r2 >= 0,
                c >= 0,
                colors >= 1,
        ;
        assert forall|j: nat| j < k implies 0 <= #[trigger] chan_walk(m, 0, j) && chan_walk(m, 0, j) + 4 <= m.len() by {
            lemma_chunk_pos(m, n, j);
        }
        lemma_walk_shift(p, m, k);
        lemma_chunk_pos(m, n, k);
        let q = chan_walk(m, 0, k);
        assert(row_chunk_ok(m, q, img, w, h, colors, ft, r2, c));
        let bh = row_height(h, r2);
        let vals = choose|vals: Seq<i8>|
            #![trigger row_vals_ok(vals, img, w, h, colors, ft, r2, c)]
            chunk_holds(m, q, vals, (bh * w) as nat) && row_vals_ok(vals, img, w, h, colors, ft, r2, c);
        lemma_holds_shift(p, m, q, vals, (bh * w) as nat);
        assert(row_vals_ok(vals, img, w, h, colors, ft, r2, c));
    }
}

} // verus!
