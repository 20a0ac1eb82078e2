//! TLG6 encoding.

use vstd::prelude::*;
use crate::bytes::{le_bytes, le_u32_at, lemma_le_bytes_value, push_u32_le};
use crate::container::append_slice;
use crate::slide::{initial_recency, initial_window, lz_decode, lz_tokens, relinked, serialize, SlideCompressor, SLIDE_N};
use crate::tlg5::layout_of_colors;
use crate::tlg_type::{spec_colors, ImageInfo, PixelLayout, TlgError};
use super::bitstream::{pack_bits, TLG6BitStream};
use super::decode::lzss_text;
use super::filter::{apply_color_filter, best_filter, detect_color_filter, FILTER_TRY_COUNT};
use super::golomb::compress_values_golomb;
use super::predict::{med, med_predict, pixel_channel, channel_offset, spec_pixel_channel};
use super::image::{
    as_i8, blk_pos, block_w, chan_walk, code_ok, lemma_chunks_append, lemma_res_byte, lemma_row_part_push, lemma_stream_append,
    lemma_stream_out, local_chunk_ok, local_vals_ok, res_byte, row_chunk_ok, row_height, row_part_ok, stored_res, tlg6_coded,
};
use super::golomb::{golomb_bits, lemma_golomb_roundtrip, lemma_run_bound, run_len, runs_short};
use super::filter::filter8;
use super::{ceil_div8, chunk_len, lemma_train_window, lzss_train, t6_scan, tlg6_decode_spec, tlg6_magic, x_blocks};

verus! {

/// `m` holds `k` channel codings one after another, each a bit length below
/// `2^30` and the bytes that length takes.
pub open spec fn well_chunked(m: Seq<u8>, k: nat) -> bool
    decreases k,
{
    if k == 0 {
        m.len() == 0
    } else {
        &&& m.len() >= 4
        &&& le_u32_at(m, 0) < 0x4000_0000
        &&& m.len() >= 4 + chunk_len(le_u32_at(m, 0))
        &&& well_chunked(m.skip(4 + chunk_len(le_u32_at(m, 0))), (k - 1) as nat)
    }
}

/// The TLG6 stream the coder writes for a `w` by `h` image of `colors`
/// channels: the magic, the channel count, the dimensions, the largest bit
/// length of the channel codings, the size of the filter table and the
/// table, then the channel codings of the block rows.
pub open spec fn tlg6_stream(img: Seq<u8>, w: u32, h: u32, colors: int) -> Seq<u8> {
    let rows = ceil_div8(h as int);
    let chunks = image_chunks(img, w as int, h as int, colors, rows as nat);
    let table = filter_table(filter_codes(img, w as int, h as int, colors));
    tlg6_magic() + seq![colors as u8, 0u8, 0u8, 0u8] + le_bytes(w) + le_bytes(h) + le_bytes(
        max_bit_length(chunks, (rows * colors) as nat) as u32,
    ) + le_bytes(table.len() as u32) + table + chunks
}

/// The filter table the coder writes for the filter bytes `fts`: their LZSS
/// coding by a fresh compressor that first took in the training text.
#[verifier::opaque]
pub open spec fn filter_table(fts: Seq<u8>) -> Seq<u8> {
    let t = lzss_train();
    let r = relinked(initial_recency(), initial_window(), 0, SLIDE_N as nat, t);
    serialize(lz_tokens(t, 0, r, (SLIDE_N + 2 * t.len()) as nat, fts, 0))
}

/// The largest bit length among the first `k` channel codings of `m`; 0
/// where there are none.
pub open spec fn max_bit_length(m: Seq<u8>, k: nat) -> int
    decreases k,
{
    if k == 0 {
        0
    } else {
        let first = le_u32_at(m, 0);
        let rest = max_bit_length(m.skip(4 + chunk_len(first)), (k - 1) as nat);
        if first > rest {
            first
        } else {
            rest
        }
    }
}

/// No bit length is negative.
proof fn lemma_max_bits_nonneg(m: Seq<u8>, k: nat)
    ensures
        max_bit_length(m, k) >= 0,
    decreases k,
{
    if k > 0 {
        lemma_max_bits_nonneg(m.skip(4 + chunk_len(le_u32_at(m, 0))), (k - 1) as nat);
    }
}

/// The largest bit length of two runs of codings, one after the other, is
/// the larger of theirs.
proof fn lemma_max_bits_concat(m: Seq<u8>, k: nat, ch: Seq<u8>, j: nat)
    requires
        well_chunked(m, k),
    ensures
        max_bit_length(m + ch, k + j) == if max_bit_length(m, k) > max_bit_length(ch, j) {
            max_bit_length(m, k)
        } else {
            max_bit_length(ch, j)
        },
    decreases k,
{
    if k == 0 {
        assert(m + ch =~= ch);
        lemma_max_bits_nonneg(ch, j);
    } else {
        let n = 4 + chunk_len(le_u32_at(m, 0));
        assert((m + ch)[0] == m[0] && (m + ch)[1] == m[1] && (m + ch)[2] == m[2] && (m + ch)[3] == m[3]);
        assert(le_u32_at(m + ch, 0) == le_u32_at(m, 0));
        assert((m + ch).skip(n) =~= m.skip(n) + ch);
        lemma_max_bits_concat(m.skip(n), (k - 1) as nat, ch, j);
        assert((k + j - 1) as nat == (k - 1) as nat + j);
    }
}

/// One more coding appended to `k` codings makes `k + 1`.
proof fn lemma_chunked_push(m: Seq<u8>, k: nat, ch: Seq<u8>)
    requires
        well_chunked(m, k),
        well_chunked(ch, 1),
    ensures
        well_chunked(m + ch, k + 1),
    decreases k,
{
    if k == 0 {
        assert(m + ch =~= ch);
    } else {
        let n = 4 + chunk_len(le_u32_at(m, 0));
        assert(le_u32_at(m + ch, 0) == le_u32_at(m, 0));
        assert((m + ch).skip(n) =~= m.skip(n) + ch);
        lemma_chunked_push(m.skip(n), (k - 1) as nat, ch);
    }
}

/// The decoder's walk over well-formed codings succeeds.
proof fn lemma_scan_ok(data: Seq<u8>, pos: int, row: int, rows: int, colors: int, c: int, ftlen: int, xbc: int)
    requires
        0 <= row <= rows,
        0 <= c <= colors,
        row == rows ==> c == 0,
        0 <= pos <= data.len(),
        well_chunked(data.skip(pos), ((rows - row) * colors - c) as nat),
        ftlen >= rows * xbc,
        xbc >= 0,
    ensures
        t6_scan(data, pos, row, rows, colors, c, ftlen, xbc) == Ok::<(), TlgError>(()),
    decreases rows - row, colors - c,
{
    if row < rows {
        if c < colors {
            assert((rows - row) * colors - c > 0) by (nonlinear_arith)
                requires
                    row < rows,
                    0 <= c < colors,
            ;
            let m = data.skip(pos);
            let bl = le_u32_at(data, pos);
            assert(le_u32_at(m, 0) == bl);
            assert(bl / 0x4000_0000 == 0);
            assert(data.skip(pos + 4 + chunk_len(bl)) =~= m.skip(4 + chunk_len(bl)));
            lemma_scan_ok(data, pos + 4 + chunk_len(bl), row, rows, colors, c + 1, ftlen, xbc);
        } else {
            assert((row + 1) * xbc <= rows * xbc) by (nonlinear_arith)
                requires
                    row < rows,
                    xbc >= 0,
            ;
            assert((rows - row) * colors - c == (rows - (row + 1)) * colors - 0) by (nonlinear_arith)
                requires
                    c == colors,
            ;
            if row + 1 < rows {
                lemma_scan_ok(data, pos, row + 1, rows, colors, 0, ftlen, xbc);
            } else {
                lemma_scan_ok(data, pos, row + 1, rows, colors, 0, ftlen, xbc);
            }
        }
    }
}

/// Pixel `(xx, yy)` of a `width` by `height` image lies inside the pixels.
proof fn lemma_px_in_range(width: int, height: int, colors: int, xx: int, yy: int)
    requires
        0 <= xx < width,
        0 <= yy < height,
        colors >= 1,
    ensures
        yy * width <= width * height,
        yy * width * colors + xx * colors + colors <= width * height * colors,
        yy * width * colors + xx * colors >= 0,
{
    assert(yy * width <= width * height) by (nonlinear_arith)
        requires
            0 <= yy < height,
            0 <= width,
    ;
    assert(yy * width * colors + xx * colors + colors == (yy * width + xx + 1) * colors) by (nonlinear_arith);
    assert(yy * width + xx + 1 <= width * height) by (nonlinear_arith)
        requires
            0 <= xx < width,
            0 <= yy < height,
    ;
    assert((yy * width + xx + 1) * colors <= width * height * colors) by (nonlinear_arith)
        requires
            yy * width + xx + 1 <= width * height,
            colors >= 1,
    ;
    assert(yy * width * colors + xx * colors >= 0) by (nonlinear_arith)
        requires
            0 <= xx,
            0 <= yy,
            0 <= width,
            colors >= 1,
    ;
}

/// Channel `c` of a pixel, with its position checked against the image.
fn channel_at(data: &Vec<u8>, width: usize, height: usize, colors: usize, xx: usize, yy: usize, c: usize) -> (v: u8)
    requires
        xx < width,
        yy < height,
        colors == 1 || colors == 3 || colors == 4,
        c < colors,
        data@.len() >= width * height * colors,
        width * height * colors + 4 <= usize::MAX,
    ensures
        v == spec_pixel_channel(data@, xx as int, yy as int, width as int, colors as int, c as int),
{
    proof {
        lemma_px_in_range(width as int, height as int, colors as int, xx as int, yy as int);
        assert(width * height <= width * height * colors) by (nonlinear_arith)
            requires
                colors >= 1,
        ;
    }
    pixel_channel(data.as_slice(), xx, yy, width, colors, c)
}

/// An earlier cell of a grid `xlim - x` wide, filled row by row, comes
/// before the row `yy`.
proof fn lemma_grid_index(x: int, xlim: int, y: int, x2: int, y2: int, yy: int)
    requires
        x <= x2 < xlim,
        y <= y2 < yy,
    ensures
        0 <= (y2 - y) * (xlim - x) + (x2 - x) < (yy - y) * (xlim - x),
{
    assert((y2 - y) * (xlim - x) + (x2 - x) < (yy - y) * (xlim - x)) by (nonlinear_arith)
        requires
            y <= y2 < yy,
            x <= x2 < xlim,
    ;
    assert((y2 - y) * (xlim - x) + (x2 - x) >= 0) by (nonlinear_arith)
        requires
            y <= y2,
            x <= x2 < xlim,
    ;
}

/// One more cell appended to a grid filled row by row keeps the cells
/// before it and holds its own value.
proof fn lemma_grid_push(r0: Seq<u8>, v: u8, x: int, xlim: int, y: int, yy: int, xx: int, val: spec_fn(int, int) -> int)
    requires
        x <= xx < xlim,
        y <= yy,
        r0.len() == (yy - y) * (xlim - x) + (xx - x),
        v as int == val(xx, yy),
        forall|x2: int, y2: int| x <= x2 < xlim && y <= y2 < yy ==> #[trigger] r0[(y2 - y) * (xlim - x) + (x2 - x)] as int == val(x2, y2),
        forall|x2: int| x <= x2 < xx ==> #[trigger] r0[(yy - y) * (xlim - x) + (x2 - x)] as int == val(x2, yy),
    ensures
        forall|x2: int, y2: int| x <= x2 < xlim && y <= y2 < yy ==> #[trigger] r0.push(v)[(y2 - y) * (xlim - x) + (x2 - x)] as int
            == val(x2, y2),
        forall|x2: int| x <= x2 < xx + 1 ==> #[trigger] r0.push(v)[(yy - y) * (xlim - x) + (x2 - x)] as int == val(x2, yy),
{
    assert forall|x2: int, y2: int| x <= x2 < xlim && y <= y2 < yy implies #[trigger] r0.push(v)[(y2 - y) * (xlim - x) + (x2 - x)]
        as int == val(x2, y2) by {
        lemma_grid_index(x, xlim, y, x2, y2, yy);
        assert((yy - y) * (xlim - x) <= r0.len());
    }
    assert forall|x2: int| x <= x2 < xx + 1 implies #[trigger] r0.push(v)[(yy - y) * (xlim - x) + (x2 - x)] as int == val(x2, yy) by {
        assert(0 <= (yy - y) * (xlim - x)) by (nonlinear_arith)
            requires
                y <= yy,
                x < xlim,
        ;
    }
}

/// Channel `c` of pixel `(xx, yy)` and of its left, upper and upper-left
/// neighbours (0 outside the image).
fn neighbours(
    data: &Vec<u8>,
    width: usize,
    height: usize,
    colors: usize,
    xx: usize,
    yy: usize,
    c: usize,
) -> (r: (u8, u8, u8, u8))
    requires
        xx < width,
        yy < height,
        colors == 1 || colors == 3 || colors == 4,
        c < colors,
        data@.len() >= width * height * colors,
        width * height * colors + 4 <= usize::MAX,
    ensures
        r.0 == (if xx > 0 { spec_pixel_channel(data@, xx - 1, yy as int, width as int, colors as int, c as int) } else { 0u8 }),
        r.1 == (if yy > 0 { spec_pixel_channel(data@, xx as int, yy - 1, width as int, colors as int, c as int) } else { 0u8 }),
        r.2 == (if xx > 0 && yy > 0 { spec_pixel_channel(data@, xx - 1, yy - 1, width as int, colors as int, c as int) } else { 0u8 }),
        r.3 == spec_pixel_channel(data@, xx as int, yy as int, width as int, colors as int, c as int),
{
    let pa = if xx > 0 {
        channel_at(data, width, height, colors, xx - 1, yy, c)
    } else {
        0u8
    };
    let pb = if yy > 0 {
        channel_at(data, width, height, colors, xx, yy - 1, c)
    } else {
        0u8
    };
    let pc = if xx > 0 && yy > 0 {
        channel_at(data, width, height, colors, xx - 1, yy - 1, c)
    } else {
        0u8
    };
    let px = channel_at(data, width, height, colors, xx, yy, c);
    (pa, pb, pc, px)
}

/// The residual of channel `c` of pixel `(xx, yy)`: the channel minus its
/// prediction from the left, upper and upper-left neighbours (0 outside
/// the image), modulo 256.
fn pixel_residual(
    data: &Vec<u8>,
    width: usize,
    height: usize,
    colors: usize,
    xx: usize,
    yy: usize,
    c: usize,
    med: bool,
) -> (v: u8)
    requires
        xx < width,
        yy < height,
        colors == 1 || colors == 3 || colors == 4,
        c < colors,
        data@.len() >= width * height * colors,
        width * height * colors + 4 <= usize::MAX,
    ensures
        v as int == res_byte(med, data@, width as int, colors as int, xx as int, yy as int, c as int),
{
    let (pa, pb, pc, px) = neighbours(data, width, height, colors, xx, yy, c);
    let sum: u16 = pa as u16 + pb as u16 + 1;
    assert(sum >> 1u16 == sum / 2) by (bit_vector);
    let py = if med {
        med_predict(pa, pb, pc)
    } else {
        (sum >> 1) as u8
    };
    let v = px.wrapping_sub(py);
    proof {
        lemma_res_byte_at(med, data@, width as int, colors as int, xx as int, yy as int, c as int, pa, pb, pc, px, py, v);
    }
    v
}

proof fn lemma_res_byte_at(
    med: bool,
    img: Seq<u8>,
    w: int,
    colors: int,
    x: int,
    y: int,
    c: int,
    pa: u8,
    pb: u8,
    pc: u8,
    px: u8,
    py: u8,
    v: u8,
)
    requires
        colors == 1 || colors == 3 || colors == 4,
        0 <= c < colors,
        0 <= x,
        0 <= y,
        pa == (if x > 0 { spec_pixel_channel(img, x - 1, y, w, colors, c) } else { 0u8 }),
        pb == (if y > 0 { spec_pixel_channel(img, x, y - 1, w, colors, c) } else { 0u8 }),
        pc == (if x > 0 && y > 0 { spec_pixel_channel(img, x - 1, y - 1, w, colors, c) } else { 0u8 }),
        px == spec_pixel_channel(img, x, y, w, colors, c),
        py as int == (if med { super::predict::med(pa as int, pb as int, pc as int) } else { (pa + pb + 1) / 2 }),
        v as int == (px - py) % 256,
    ensures
        v as int == res_byte(med, img, w, colors, x, y, c),
{
    lemma_res_byte(med, img, w, colors, x, y, c, pa, pb, pc, px);
}

/// The prediction residuals of channel `c` over the block `x..xlim` by
/// `y..ylim`, row by row: the median edge detector's where `med` holds,
/// the rounded-down average of left and upper neighbours otherwise.
fn block_residuals(
    data: &Vec<u8>,
    width: usize,
    height: usize,
    colors: usize,
    x: usize,
    xlim: usize,
    y: usize,
    ylim: usize,
    c: usize,
    med: bool,
) -> (raw: Vec<u8>)
    requires
        x < xlim <= width,
        y < ylim <= height,
        xlim - x <= 8,
        ylim - y <= 8,
        colors == 1 || colors == 3 || colors == 4,
        c < colors,
        data@.len() >= width * height * colors,
        width * height * colors + 4 <= usize::MAX,
    ensures
        raw@.len() == (xlim - x) * (ylim - y),
        forall|xx: int, yy: int|
            x <= xx < xlim && y <= yy < ylim ==> #[trigger] raw@[(yy - y) * (xlim - x) + (xx - x)] as int == res_byte(
                med,
                data@,
                width as int,
                colors as int,
                xx,
                yy,
                c as int,
            ),
{
    let mut raw: Vec<u8> = Vec::new();
    let mut yy = y;
    while yy < ylim
        invariant
            x < xlim <= width,
            y <= yy <= ylim <= height,
            xlim - x <= 8,
            colors == 1 || colors == 3 || colors == 4,
            c < colors,
            data@.len() >= width * height * colors,
            width * height * colors + 4 <= usize::MAX,
            raw@.len() == (xlim - x) * (yy - y),
            forall|x2: int, y2: int|
                x <= x2 < xlim && y <= y2 < yy ==> #[trigger] raw@[(y2 - y) * (xlim - x) + (x2 - x)] as int == res_byte(
                    med,
                    data@,
                    width as int,
                    colors as int,
                    x2,
                    y2,
                    c as int,
                ),
        decreases ylim - yy,
    {
        let mut xx = x;
        while xx < xlim
            invariant
                x <= xx <= xlim <= width,
                y <= yy < ylim <= height,
                xlim - x <= 8,
                colors == 1 || colors == 3 || colors == 4,
                c < colors,
                data@.len() >= width * height * colors,
                width * height * colors + 4 <= usize::MAX,
                raw@.len() == (xlim - x) * (yy - y) + (xx - x),
                forall|x2: int, y2: int|
                    x <= x2 < xlim && y <= y2 < yy ==> #[trigger] raw@[(y2 - y) * (xlim - x) + (x2 - x)] as int == res_byte(
                        med,
                        data@,
                        width as int,
                        colors as int,
                        x2,
                        y2,
                        c as int,
                    ),
                forall|x2: int| x <= x2 < xx ==> #[trigger] raw@[(yy - y) * (xlim - x) + (x2 - x)] as int == res_byte(
                    med,
                    data@,
                    width as int,
                    colors as int,
                    x2,
                    yy as int,
                    c as int,
                ),
            decreases xlim - xx,
        {
            let v = pixel_residual(data, width, height, colors, xx, yy, c, med);
            let ghost r0 = raw@;
            let ghost val = |a: int, b: int| res_byte(med, data@, width as int, colors as int, a, b, c as int);
            proof {
                assert((xlim - x) * (yy - y) == (yy - y) * (xlim - x)) by (nonlinear_arith);
                lemma_grid_push(r0, v, x as int, xlim as int, y as int, yy as int, xx as int, val);
            }
            raw.push(v);
            xx = xx + 1;
        }
        assert((xlim - x) * (yy - y) + (xlim - x) == (xlim - x) * (yy + 1 - y)) by (nonlinear_arith);
        yy = yy + 1;
    }
    raw
}

/// Which raw row the serpentine order puts at its row `yy` (as an offset).
spec fn serp_ofs(yy: int, y: int, bh: int, bw: int, xp: int) -> int {
    if xp % 2 == 0 {
        (yy - y) * bw
    } else {
        (y + bh - 1 - yy) * bw
    }
}

/// Whether the serpentine order runs its row `yy` backwards.
spec fn serp_back(yy: int, bh: int, xp: int) -> bool {
    if bh % 2 == 0 {
        yy % 2 != xp % 2
    } else if xp % 2 != 0 {
        yy % 2 != 0
    } else {
        yy % 2 != xp % 2
    }
}

/// Reorders a block's residuals into the serpentine order: rows top to
/// bottom in even blocks and bottom to top in odd ones (`xp` counts the
/// blocks of the row), each row forwards or backwards so that consecutive
/// residuals stay neighbours.  The residual of column `t` of line `yy` goes
/// where `blk_pos` says.
fn serpentine(raw: &Vec<u8>, bw: usize, bheight: usize, y: usize, xp: usize) -> (out: Vec<u8>)
    requires
        raw@.len() == bw * bheight,
        bw <= 8,
        bheight <= 8,
        y + bheight <= usize::MAX,
        y % 2 == 0,
    ensures
        out@.len() == bw * bheight,
        forall|t: int, yy: int|
            0 <= t < bw && y <= yy < y + bheight ==> #[trigger] out@[blk_pos(t, yy, y as int, bheight as int, bw as int, xp as int)]
                == raw@[(yy - y) * bw + t],
{
    let ylim = y + bheight;
    let mut out: Vec<u8> = Vec::new();
    let mut yy = y;
    assert(bw * bheight <= 64) by (nonlinear_arith)
        requires
            bw <= 8,
            bheight <= 8,
    ;
    while yy < ylim
        invariant
            raw@.len() == bw * bheight,
            bw * bheight <= 64,
            bw <= 8,
            bheight <= 8,
            ylim == y + bheight,
            y <= yy <= ylim,
            out@.len() == bw * (yy - y),
            forall|y2: int, k: int|
                y <= y2 < yy && 0 <= k < bw ==> #[trigger] out@[bw * (y2 - y) + k] == raw@[serp_ofs(y2, y as int, bheight as int, bw as int, xp as int)
                    + (if serp_back(y2, bheight as int, xp as int) { bw - 1 - k } else { k })],
        decreases ylim - yy,
    {
        assert((yy - y) * bw <= 64 && (ylim - yy - 1) * bw <= 64) by (nonlinear_arith)
            requires
                y <= yy < ylim,
                ylim == y + bheight,
                bheight <= 8,
                bw <= 8,
        ;
        let ofs = if (xp & 1) == 0 {
            (yy - y) * bw
        } else {
            (ylim - yy - 1) * bw
        };
        assert(((xp & 1) == 0) == (xp % 2 == 0) && ((xp & 1) != 0) == (xp % 2 != 0) && ((bheight & 1) == 0) == (bheight % 2
            == 0) && ((yy & 1) != 0) == (yy % 2 != 0) && (((yy & 1) ^ (xp & 1)) != 0) == (yy % 2 != xp % 2)) by (bit_vector);
        assert(ofs == serp_ofs(yy as int, y as int, bheight as int, bw as int, xp as int));
        assert(ofs + bw <= bw * bheight) by (nonlinear_arith)
            requires
                ofs == (yy - y) * bw || ofs == (ylim - yy - 1) * bw,
                y <= yy < ylim,
                ylim == y + bheight,
        ;
        let dir = if (bheight & 1) == 0 {
            ((yy & 1) ^ (xp & 1)) != 0
        } else if (xp & 1) != 0 {
            (yy & 1) != 0
        } else {
            ((yy & 1) ^ (xp & 1)) != 0
        };
        assert(dir == serp_back(yy as int, bheight as int, xp as int));
        let ghost o0 = out@;
        let mut k: usize = 0;
        while k < bw
            invariant
                k <= bw,
                ofs + bw <= raw@.len(),
                raw@.len() <= 64,
                out@.len() == bw * (yy - y) + k,
                o0.len() == bw * (yy - y),
                forall|i: int| 0 <= i < o0.len() ==> #[trigger] out@[i] == o0[i],
                forall|j: int| 0 <= j < k ==> #[trigger] out@[bw * (yy - y) + j] == raw@[ofs + (if dir { bw - 1 - j } else { j })],
            decreases bw - k,
        {
            let xx = if !dir {
                k
            } else {
                bw - 1 - k
            };
            out.push(raw[ofs + xx]);
            k = k + 1;
        }
        proof {
            assert forall|y2: int, k2: int| y <= y2 < yy + 1 && 0 <= k2 < bw implies #[trigger] out@[bw * (y2 - y) + k2]
                == raw@[serp_ofs(y2, y as int, bheight as int, bw as int, xp as int) + (if serp_back(y2, bheight as int, xp as int) {
                bw - 1 - k2
            } else {
                k2
            })] by {
                if y2 < yy {
                    assert(bw * (y2 - y) + k2 < bw * (yy - y)) by (nonlinear_arith)
                        requires
                            y2 < yy,
                            0 <= k2 < bw,
                    ;
                    assert(bw * (y2 - y) + k2 >= 0) by (nonlinear_arith)
                        requires
                            y <= y2,
                            0 <= k2,
                            bw >= 0,
                    ;
                }
            }
        }
        assert(bw * (yy - y) + bw == bw * (yy + 1 - y)) by (nonlinear_arith);
        yy = yy + 1;
    }
    proof {
        assert forall|t: int, yy2: int| 0 <= t < bw && y <= yy2 < y + bheight implies #[trigger] out@[blk_pos(
            t,
            yy2,
            y as int,
            bheight as int,
            bw as int,
            xp as int,
        )] == raw@[(yy2 - y) * bw + t] by {
            let bh = bheight as int;
            let yp = if xp % 2 == 0 { yy2 } else { 2 * y + bh - 1 - yy2 };
            assert(y <= yp < y + bh);
            assert(serp_ofs(yp, y as int, bh, bw as int, xp as int) == (yy2 - y) * bw);
            assert(serp_back(yp, bh, xp as int) == (yy2 % 2 != 0)) by {
                if xp % 2 != 0 {
                    assert((2 * y + bh - 1 - yy2) % 2 == (if bh % 2 == 0 { (yy2 + 1) % 2 } else { yy2 % 2 }));
                }
            }
            let k2 = if yy2 % 2 == 0 { t } else { bw - 1 - t };
            assert(0 <= k2 < bw);
            assert(out@[bw * (yp - y) + k2] == raw@[(yy2 - y) * bw + t]);
            assert(blk_pos(t, yy2, y as int, bh, bw as int, xp as int) == (yp - y) * bw + k2);
            assert((yp - y) * bw == bw * (yp - y)) by (nonlinear_arith);
        }
    }
    out
}

/// The residuals read as signed bytes.
fn to_signed(v: &Vec<u8>) -> (r: Vec<i8>)
    ensures
        r@.len() == v@.len(),
        forall|i: int| 0 <= i < v@.len() ==> #[trigger] r@[i] == as_i8(v@[i] as int),
{
    let mut r: Vec<i8> = Vec::new();
    let mut i: usize = 0;
    while i < v.len()
        invariant
            i <= v@.len(),
            r@.len() == i,
            forall|j: int| 0 <= j < i ==> #[trigger] r@[j] == as_i8(v@[j] as int),
        decreases v@.len() - i,
    {
        let b = v[i];
        let s: i8 = if b < 128 {
            b as i8
        } else {
            (b as i16 - 256) as i8
        };
        r.push(s);
        i = i + 1;
    }
    r
}

/// The serpentine-ordered residuals of every channel of one block, for one
/// of the two predictions.
fn block_channels(
    data: &Vec<u8>,
    width: usize,
    height: usize,
    colors: usize,
    x: usize,
    xlim: usize,
    y: usize,
    ylim: usize,
    xp: usize,
    med: bool,
) -> (r: Vec<Vec<u8>>)
    requires
        x < xlim <= width,
        y < ylim <= height,
        xlim - x <= 8,
        ylim - y <= 8,
        colors == 1 || colors == 3 || colors == 4,
        data@.len() >= width * height * colors,
        width * height * colors + 4 <= usize::MAX,
        y % 2 == 0,
    ensures
        r@.len() == colors,
        forall|c: int| 0 <= c < colors ==> (#[trigger] r@[c])@.len() == (xlim - x) * (ylim - y),
        forall|c: int, t: int, yy: int|
            0 <= c < colors && 0 <= t < xlim - x && y <= yy < ylim ==> #[trigger] r@[c]@[blk_pos(t, yy, y as int, (ylim - y) as int, (xlim - x) as int, xp as int)]
                as int == res_byte(med, data@, width as int, colors as int, x + t, yy, c),
{
    let mut r: Vec<Vec<u8>> = Vec::new();
    let mut c: usize = 0;
    while c < colors
        invariant
            c <= colors,
            x < xlim <= width,
            y < ylim <= height,
            xlim - x <= 8,
            ylim - y <= 8,
            colors == 1 || colors == 3 || colors == 4,
            data@.len() >= width * height * colors,
            width * height * colors + 4 <= usize::MAX,
            r@.len() == c,
            y % 2 == 0,
            forall|c2: int| 0 <= c2 < c ==> (#[trigger] r@[c2])@.len() == (xlim - x) * (ylim - y),
            forall|c2: int, t: int, yy: int|
                0 <= c2 < c && 0 <= t < xlim - x && y <= yy < ylim ==> #[trigger] r@[c2]@[blk_pos(t, yy, y as int, (ylim - y) as int, (xlim - x) as int, xp as int)]
                    as int == res_byte(med, data@, width as int, colors as int, x + t, yy, c2),
        decreases colors - c,
    {
        let raw = block_residuals(data, width, height, colors, x, xlim, y, ylim, c, med);
        assert((xlim - x) * (ylim - y) == (ylim - y) * (xlim - x)) by (nonlinear_arith);
        let ordered = serpentine(&raw, xlim - x, ylim - y, y, xp);
        proof {
            assert forall|t: int, yy: int| 0 <= t < xlim - x && y <= yy < ylim implies #[trigger] ordered@[blk_pos(t, yy, y as int, (ylim - y) as int, (xlim - x) as int, xp as int)]
                as int == res_byte(med, data@, width as int, colors as int, x + t, yy, c as int) by {
                assert(raw@[(yy - y) * (xlim - x) + ((x + t) - x)] as int == res_byte(med, data@, width as int, colors as int, x + t, yy, c as int));
                assert((x + t) - x == t);
            }
        }
        r.push(ordered);
        c = c + 1;
    }
    r
}

/// The line of the block (`bw` by `bh`, block `i` of the block row of
/// lines `y..y + bh`) that slot `k` of its channels holds.
pub open spec fn slot_line(k: int, y: int, bh: int, bw: int, i: int) -> int {
    if i % 2 == 0 {
        y + k / bw
    } else {
        y + bh - 1 - k / bw
    }
}

/// The column within the block that slot `k` of its channels holds.
pub open spec fn slot_col(k: int, y: int, bh: int, bw: int, i: int) -> int {
    if slot_line(k, y, bh, bw, i) % 2 == 0 {
        k % bw
    } else {
        bw - 1 - k % bw
    }
}

/// Channel `c` of the residual bytes of block `i` (columns `x..x + bw`,
/// lines `y..y + bh`) under the median (`med`) or average prediction, in
/// the order the block keeps its pixels.
pub open spec fn block_res(med: bool, img: Seq<u8>, w: int, colors: int, x: int, bw: int, y: int, bh: int, i: int, c: int) -> Seq<u8> {
    Seq::new(
        (bw * bh) as nat,
        |k: int| res_byte(med, img, w, colors, x + slot_col(k, y, bh, bw, i), slot_line(k, y, bh, bw, i), c) as u8,
    )
}

/// The filter byte the coder picks for block `i`: for a colour image, the
/// prediction and colour filter with the smallest estimate (the first such
/// filter; the average prediction where the two estimates tie), for a gray
/// image the median prediction.
pub open spec fn block_code(img: Seq<u8>, w: int, colors: int, x: int, bw: int, y: int, bh: int, i: int) -> int {
    if colors >= 3 {
        let m = best_filter(
            block_res(true, img, w, colors, x, bw, y, bh, i, 0),
            block_res(true, img, w, colors, x, bw, y, bh, i, 1),
            block_res(true, img, w, colors, x, bw, y, bh, i, 2),
            bw * bh,
            FILTER_TRY_COUNT as int,
        );
        let a = best_filter(
            block_res(false, img, w, colors, x, bw, y, bh, i, 0),
            block_res(false, img, w, colors, x, bw, y, bh, i, 1),
            block_res(false, img, w, colors, x, bw, y, bh, i, 2),
            bw * bh,
            FILTER_TRY_COUNT as int,
        );
        if m.1 >= a.1 {
            2 * a.0 + 1
        } else {
            2 * m.0
        }
    } else {
        0
    }
}

/// The filter bytes of the block row of lines `y..y + bh` are the ones the
/// coder picks for its blocks.
pub open spec fn row_codes(ft: Seq<u8>, img: Seq<u8>, w: int, colors: int, y: int, bh: int) -> bool {
    forall|k: int| 0 <= k < ft.len() ==> #[trigger] ft[k] as int == block_code(img, w, colors, 8 * k, block_w(w, k), y, bh, k)
}

/// The filter bytes the coder picks for all blocks of a `w` by `h` image,
/// block row by block row.
pub open spec fn filter_codes(img: Seq<u8>, w: int, h: int, colors: int) -> Seq<u8> {
    let xb = ceil_div8(w);
    Seq::new(
        (ceil_div8(h) * xb) as nat,
        |k: int| block_code(img, w, colors, 8 * (k % xb), block_w(w, k % xb), 8 * (k / xb), row_height(h, k / xb), k % xb) as u8,
    )
}

/// Channel `c` of the residuals the coder stores for the block row of lines
/// `y..y + bh`, in the order it codes them: block after block, each as
/// `blk_pos` lays it out, under the filter byte picked for the block.
#[verifier::opaque]
pub open spec fn row_res(img: Seq<u8>, w: int, colors: int, y: int, bh: int, c: int) -> Seq<i8> {
    Seq::new(
        (bh * w) as nat,
        |k: int|
            {
                let i = k / (8 * bh);
                let kk = k % (8 * bh);
                let bw = block_w(w, i);
                stored_res(
                    block_code(img, w, colors, 8 * i, bw, y, bh, i),
                    img,
                    w,
                    colors,
                    8 * i + slot_col(kk, y, bh, bw, i),
                    slot_line(kk, y, bh, bw, i),
                    c,
                )
            },
    )
}

/// The coding of channel `c` of the block row of lines `y..y + bh`: its bit
/// length, then the bits of the Golomb coding of its residuals.
pub open spec fn channel_chunk(img: Seq<u8>, w: int, colors: int, y: int, bh: int, c: int) -> Seq<u8> {
    let bits = golomb_bits(row_res(img, w, colors, y, bh, c), 0);
    le_bytes(bits.len() as u32) + pack_bits(bits)
}

/// The codings of the first `n` channels of the block row of lines
/// `y..y + bh`, one after another.
pub open spec fn row_chunks(img: Seq<u8>, w: int, colors: int, y: int, bh: int, n: nat) -> Seq<u8>
    decreases n,
{
    if n == 0 {
        Seq::empty()
    } else {
        row_chunks(img, w, colors, y, bh, (n - 1) as nat) + channel_chunk(img, w, colors, y, bh, n - 1)
    }
}

/// The channel codings of the first `rows` block rows of a `w` by `h` image.
pub open spec fn image_chunks(img: Seq<u8>, w: int, h: int, colors: int, rows: nat) -> Seq<u8>
    decreases rows,
{
    if rows == 0 {
        Seq::empty()
    } else {
        image_chunks(img, w, h, colors, (rows - 1) as nat) + row_chunks(
            img,
            w,
            colors,
            8 * (rows - 1),
            row_height(h, rows - 1),
            colors as nat,
        )
    }
}

/// Every channel of the block row of lines `y..y + bh` has short runs
/// (`runs_short`).
pub open spec fn row_runs_short(img: Seq<u8>, w: int, colors: int, y: int, bh: int) -> bool {
    forall|c: int| 0 <= c < colors ==> #[trigger] runs_short(row_res(img, w, colors, y, bh, c))
}

/// Every block row of a `w` by `h` image has short runs: no run of `2^26`
/// or more residuals of equal zero-ness in any of its channels.
pub open spec fn image_runs_short(img: Seq<u8>, w: int, h: int, colors: int) -> bool {
    forall|r: int| 0 <= r < ceil_div8(h) ==> #[trigger] row_runs_short(img, w, colors, 8 * r, row_height(h, r))
}

/// Whether some channel's coding of the block row of lines `y..y + bh`
/// takes `2^30` bits or more, more than a coding's bit length can say.
pub open spec fn row_overflows(img: Seq<u8>, w: int, colors: int, y: int, bh: int) -> bool {
    exists|c: int| 0 <= c < colors && #[trigger] golomb_bits(row_res(img, w, colors, y, bh, c), 0).len() >= 0x4000_0000
}

/// Whether some block row of a `w` by `h` image overflows (see
/// `row_overflows`).
pub open spec fn image_overflows(img: Seq<u8>, w: int, h: int, colors: int) -> bool {
    exists|row: int| 0 <= row < ceil_div8(h) && #[trigger] row_overflows(img, w, colors, 8 * row, row_height(h, row))
}

/// The residuals the row's blocks kept, each under the filter byte picked
/// for it, are `row_res`.
proof fn lemma_row_res(v: Seq<i8>, ft: Seq<u8>, img: Seq<u8>, w: int, colors: int, y: int, bh: int, c: int)
    requires
        w >= 0,
        1 <= bh <= 8,
        v.len() == bh * w,
        ft.len() == ceil_div8(w),
        row_codes(ft, img, w, colors, y, bh),
        row_part_ok(v, img, w, colors, ft, y, bh, c, w),
    ensures
        v == row_res(img, w, colors, y, bh, c),
{
    reveal(row_res);
    let rr = row_res(img, w, colors, y, bh, c);
    assert forall|k: int| 0 <= k < v.len() implies v[k] == rr[k] by {
        let i = k / (8 * bh);
        let kk = k % (8 * bh);
        vstd::arithmetic::div_mod::lemma_fundamental_div_mod(k, 8 * bh);
        assert(k == 8 * bh * i + kk && 0 <= kk < 8 * bh);
        assert(0 <= i);
        assert(8 * i < w) by (nonlinear_arith)
            requires
                k == 8 * bh * i + kk,
                0 <= kk,
                k < bh * w,
                bh >= 1,
                i >= 0,
        ;
        let bw = block_w(w, i);
        assert(kk < bw * bh) by (nonlinear_arith)
            requires
                k == 8 * bh * i + kk,
                kk < 8 * bh,
                k < bh * w,
                bw == (if w - 8 * i > 8 { 8 } else { w - 8 * i }),
        ;
        assert(bw > 0);
        lemma_slot_inverse(kk, y, bh, bw, i);
        let t = slot_col(kk, y, bh, bw, i);
        let yy = slot_line(kk, y, bh, bw, i);
        let x = 8 * i + t;
        assert(x / 8 == i && x % 8 == t);
        assert(x < w);
        assert(super::image::enc_pos(x, yy, y, bh, w) == k);
        assert(v[super::image::enc_pos(x, yy, y, bh, w)] == stored_res(ft[x / 8] as int, img, w, colors, x, yy, c));
        assert(i < ft.len());
        assert(ft[i] as int == block_code(img, w, colors, 8 * i, block_w(w, i), y, bh, i));
    }
    assert(v =~= rr);
}

/// Appending a block row's filter bytes to those of the rows above it keeps
/// each byte the one the coder picks for its block.
proof fn lemma_codes_append(
    f0: Seq<u8>,
    f: Seq<u8>,
    fts: Seq<u8>,
    img: Seq<u8>,
    w: int,
    h: int,
    colors: int,
    row: int,
    y: int,
    ylim: int,
)
    requires
        fts == f0 + f,
        row >= 0,
        y == 8 * row,
        ylim - y == row_height(h, row),
        f0.len() == row * ceil_div8(w),
        f.len() == ceil_div8(w),
        row_codes(f, img, w, colors, y, ylim - y),
        forall|k: int| 0 <= k < f0.len() ==> #[trigger] f0[k] as int == block_code(
            img,
            w,
            colors,
            8 * (k % ceil_div8(w)),
            block_w(w, k % ceil_div8(w)),
            8 * (k / ceil_div8(w)),
            row_height(h, k / ceil_div8(w)),
            k % ceil_div8(w),
        ),
    ensures
        forall|k: int| 0 <= k < fts.len() ==> #[trigger] fts[k] as int == block_code(
            img,
            w,
            colors,
            8 * (k % ceil_div8(w)),
            block_w(w, k % ceil_div8(w)),
            8 * (k / ceil_div8(w)),
            row_height(h, k / ceil_div8(w)),
            k % ceil_div8(w),
        ),
{
    let xb = ceil_div8(w);
    assert forall|k: int| 0 <= k < fts.len() implies #[trigger] fts[k] as int == block_code(
        img,
        w,
        colors,
        8 * (k % xb),
        block_w(w, k % xb),
        8 * (k / xb),
        row_height(h, k / xb),
        k % xb,
    ) by {
        if k < f0.len() {
            assert(fts[k] == f0[k]);
        } else {
            let j = k - f0.len();
            assert(fts[k] == f[j]);
            assert(k == row * xb + j) by (nonlinear_arith)
                requires
                    k == f0.len() + j,
                    f0.len() == row * xb,
            ;
            vstd::arithmetic::div_mod::lemma_fundamental_div_mod_converse(k, xb, row, j);
        }
    }
}

/// Slot `k` of a block's channels holds the pixel `blk_pos` puts there.
proof fn lemma_slot_inverse(k: int, y: int, bh: int, bw: int, i: int)
    requires
        bw > 0,
        bh > 0,
        0 <= k < bw * bh,
    ensures
        0 <= slot_col(k, y, bh, bw, i) < bw,
        y <= slot_line(k, y, bh, bw, i) < y + bh,
        blk_pos(slot_col(k, y, bh, bw, i), slot_line(k, y, bh, bw, i), y, bh, bw, i) == k,
{
    let q = k / bw;
    let s = k % bw;
    vstd::arithmetic::div_mod::lemma_fundamental_div_mod(k, bw);
    assert(0 <= q < bh) by (nonlinear_arith)
        requires
            0 <= k < bw * bh,
            bw > 0,
            q == k / bw,
    ;
    let yy = slot_line(k, y, bh, bw, i);
    let t = slot_col(k, y, bh, bw, i);
    assert(k == q * bw + s) by (nonlinear_arith)
        requires
            k == bw * (k / bw) + k % bw,
            q == k / bw,
            s == k % bw,
    ;
}

/// A block's channel, as `blk_pos` lays out its residual bytes, is that
/// channel of `block_res`.
proof fn lemma_block_res(
    chan: Seq<u8>,
    med: bool,
    img: Seq<u8>,
    w: int,
    colors: int,
    x: int,
    bw: int,
    y: int,
    bh: int,
    i: int,
    c: int,
)
    requires
        bw > 0,
        bh > 0,
        chan.len() == bw * bh,
        forall|t: int, yy: int|
            0 <= t < bw && y <= yy < y + bh ==> #[trigger] chan[blk_pos(t, yy, y, bh, bw, i)] as int == res_byte(
                med,
                img,
                w,
                colors,
                x + t,
                yy,
                c,
            ),
    ensures
        chan == block_res(med, img, w, colors, x, bw, y, bh, i, c),
{
    let br = block_res(med, img, w, colors, x, bw, y, bh, i, c);
    assert forall|k: int| 0 <= k < chan.len() implies chan[k] == br[k] by {
        lemma_slot_inverse(k, y, bh, bw, i);
        let t = slot_col(k, y, bh, bw, i);
        let yy = slot_line(k, y, bh, bw, i);
        assert(chan[blk_pos(t, yy, y, bh, bw, i)] as int == res_byte(med, img, w, colors, x + t, yy, c));
    }
    assert(chan =~= br);
}

/// Encodes one block: picks the prediction (and, for colour images, the
/// filter) with the smaller estimate and returns the block's filter byte
/// (twice the filter code, plus 1 for the average prediction) and its
/// residuals, one vector per channel (empty for channels the image lacks).
fn encode_block(
    data: &Vec<u8>,
    width: usize,
    height: usize,
    colors: usize,
    x: usize,
    xlim: usize,
    y: usize,
    ylim: usize,
    xp: usize,
) -> (r: (u8, Vec<i8>, Vec<i8>, Vec<i8>, Vec<i8>))
    requires
        x < xlim <= width,
        y < ylim <= height,
        xlim - x <= 8,
        ylim - y <= 8,
        colors == 1 || colors == 3 || colors == 4,
        data@.len() >= width * height * colors,
        width * height * colors + 4 <= usize::MAX,
        y % 8 == 0,
    ensures
        r.0 < 32,
        r.0 as int == block_code(data@, width as int, colors as int, x as int, (xlim - x) as int, y as int, (ylim - y) as int, xp as int),
        code_ok(r.0 as int, colors as int),
        r.1@.len() == (xlim - x) * (ylim - y),
        colors >= 3 ==> r.2@.len() == (xlim - x) * (ylim - y) && r.3@.len() == (xlim - x) * (ylim - y),
        colors == 4 ==> r.4@.len() == (xlim - x) * (ylim - y),
        forall|t: int, yy: int|
            0 <= t < xlim - x && y <= yy < ylim ==> {
                let bp = #[trigger] blk_pos(t, yy, y as int, (ylim - y) as int, (xlim - x) as int, xp as int);
                &&& r.1@[bp] == stored_res(r.0 as int, data@, width as int, colors as int, x + t, yy, 0)
                &&& colors >= 3 ==> r.2@[bp] == stored_res(r.0 as int, data@, width as int, colors as int, x + t, yy, 1)
                &&& colors >= 3 ==> r.3@[bp] == stored_res(r.0 as int, data@, width as int, colors as int, x + t, yy, 2)
                &&& colors == 4 ==> r.4@[bp] == stored_res(r.0 as int, data@, width as int, colors as int, x + t, yy, 3)
            },
{
    let bw = xlim - x;
    let bh = ylim - y;
    assert(bw * bh <= 64) by (nonlinear_arith)
        requires
            bw <= 8,
            bh <= 8,
    ;
    let wp = bw * bh;
    let meds = block_channels(data, width, height, colors, x, xlim, y, ylim, xp, true);
    let avgs = block_channels(data, width, height, colors, x, xlim, y, ylim, xp, false);
    let mut ft: u32 = 0;
    let mut minp: u32 = 0;
    if colors >= 3 {
        let (ft0, p0size) = detect_color_filter(meds[0].as_slice(), meds[1].as_slice(), meds[2].as_slice(), wp);
        let (ft1, p1size) = detect_color_filter(avgs[0].as_slice(), avgs[1].as_slice(), avgs[2].as_slice(), wp);
        if p0size >= p1size {
            ft = ft1;
            minp = 1;
        } else {
            ft = ft0;
            minp = 0;
        }
        proof {
            super::filter::lemma_best_filter_code(meds[0]@, meds[1]@, meds[2]@, wp as int, 16);
            super::filter::lemma_best_filter_code(avgs[0]@, avgs[1]@, avgs[2]@, wp as int, 16);
            let (bw, bh) = ((xlim - x) as int, (ylim - y) as int);
            assert(wp == bw * bh);
            lemma_block_res(meds[0]@, true, data@, width as int, colors as int, x as int, bw, y as int, bh, xp as int, 0);
            lemma_block_res(meds[1]@, true, data@, width as int, colors as int, x as int, bw, y as int, bh, xp as int, 1);
            lemma_block_res(meds[2]@, true, data@, width as int, colors as int, x as int, bw, y as int, bh, xp as int, 2);
            lemma_block_res(avgs[0]@, false, data@, width as int, colors as int, x as int, bw, y as int, bh, xp as int, 0);
            lemma_block_res(avgs[1]@, false, data@, width as int, colors as int, x as int, bw, y as int, bh, xp as int, 1);
            lemma_block_res(avgs[2]@, false, data@, width as int, colors as int, x as int, bw, y as int, bh, xp as int, 2);
        }
    }
    let chosen = if minp == 0 {
        &meds
    } else {
        &avgs
    };
    let ghost med = minp == 0;
    let ghost f = (ft * 2 + minp) as int;
    let ghost bh = (ylim - y) as int;
    let ghost bw = (xlim - x) as int;
    let mut b = to_signed(&chosen[0]);
    let ghost b0 = b@;
    let mut g: Vec<i8> = Vec::new();
    let mut r: Vec<i8> = Vec::new();
    let mut a: Vec<i8> = Vec::new();
    proof {
        assert(ft < 16) by {
            if colors >= 3 {
                super::filter::lemma_best_filter_code(meds[0]@, meds[1]@, meds[2]@, wp as int, 16);
                super::filter::lemma_best_filter_code(avgs[0]@, avgs[1]@, avgs[2]@, wp as int, 16);
            }
        }
        assert(f / 2 == ft && (f % 2 == 0) == med);
    }
    if colors >= 3 {
        g = to_signed(&chosen[1]);
        r = to_signed(&chosen[2]);
        let ghost g0 = g@;
        let ghost r0 = r@;
        apply_color_filter(b.as_mut_slice(), g.as_mut_slice(), r.as_mut_slice(), wp, ft);
        if colors == 4 {
            a = to_signed(&chosen[3]);
        }
        proof {
            assert forall|t: int, yy: int| 0 <= t < bw && y <= yy < ylim implies {
                let bp = #[trigger] blk_pos(t, yy, y as int, bh, bw, xp as int);
                &&& b@[bp] == stored_res(f, data@, width as int, colors as int, x + t, yy, 0)
                &&& g@[bp] == stored_res(f, data@, width as int, colors as int, x + t, yy, 1)
                &&& r@[bp] == stored_res(f, data@, width as int, colors as int, x + t, yy, 2)
                &&& colors == 4 ==> a@[bp] == stored_res(f, data@, width as int, colors as int, x + t, yy, 3)
            } by {
                let bp = blk_pos(t, yy, y as int, bh, bw, xp as int);
                super::image::lemma_blk_pos_range(t, yy, y as int, bh, bw, xp as int);
                assert(bh * bw == wp) by (nonlinear_arith)
                    requires
                        bh == ylim - y,
                        bw == xlim - x,
                        wp == bw * bh,
                ;
                assert(bp < wp);
                assert(chosen[0]@[bp] as int == res_byte(med, data@, width as int, colors as int, x + t, yy, 0));
                assert(chosen[1]@[bp] as int == res_byte(med, data@, width as int, colors as int, x + t, yy, 1));
                assert(chosen[2]@[bp] as int == res_byte(med, data@, width as int, colors as int, x + t, yy, 2));
                assert((b@[bp], g@[bp], r@[bp]) == filter8(ft as int, b0[bp], g0[bp], r0[bp]));
                if colors == 4 {
                    assert(chosen[3]@[bp] as int == res_byte(med, data@, width as int, colors as int, x + t, yy, 3));
                }
            }
        }
    } else {
        proof {
            assert forall|t: int, yy: int| 0 <= t < bw && y <= yy < ylim implies {
                let bp = #[trigger] blk_pos(t, yy, y as int, bh, bw, xp as int);
                b@[bp] == stored_res(f, data@, width as int, colors as int, x + t, yy, 0)
            } by {
                let bp = blk_pos(t, yy, y as int, bh, bw, xp as int);
                super::image::lemma_blk_pos_range(t, yy, y as int, bh, bw, xp as int);
                assert(bh * bw == wp) by (nonlinear_arith)
                    requires
                        bh == ylim - y,
                        bw == xlim - x,
                        wp == bw * bh,
                ;
                assert(minp == 0 && f == 0);
                assert(chosen[0]@[bp] as int == res_byte(med, data@, width as int, colors as int, x + t, yy, 0));
            }
        }
    }
    ((ft * 2 + minp) as u8, b, g, r, a)
}

/// A single channel coding: a bit length below `2^30` and its bytes.
proof fn lemma_one_chunk(bl: u32, bytes: Seq<u8>)
    requires
        bl < 0x4000_0000,
        bytes.len() == (bl + 7) / 8,
    ensures
        well_chunked(le_bytes(bl) + bytes, 1),
{
    reveal_with_fuel(well_chunked, 2);
    lemma_le_bytes_value(bl);
    let ch = le_bytes(bl) + bytes;
    assert(ch[0] == le_bytes(bl)[0] && ch[1] == le_bytes(bl)[1] && ch[2] == le_bytes(bl)[2] && ch[3] == le_bytes(bl)[3]);
    assert(le_u32_at(ch, 0) == le_u32_at(le_bytes(bl), 0));
    assert(chunk_len(bl as int) == (bl + 7) / 8);
    assert(ch.skip(4 + chunk_len(bl as int)) =~= Seq::<u8>::empty());
}


/// Codings side by side make one sequence of codings.
proof fn lemma_chunked_concat(m: Seq<u8>, k: nat, ch: Seq<u8>, j: nat)
    requires
        well_chunked(m, k),
        well_chunked(ch, j),
    ensures
        well_chunked(m + ch, k + j),
    decreases k,
{
    if k == 0 {
        assert(m + ch =~= ch);
    } else {
        let n = 4 + chunk_len(le_u32_at(m, 0));
        assert((m + ch)[0] == m[0] && (m + ch)[1] == m[1] && (m + ch)[2] == m[2] && (m + ch)[3] == m[3]);
        assert(le_u32_at(m + ch, 0) == le_u32_at(m, 0));
        assert((m + ch).skip(n) =~= m.skip(n) + ch);
        lemma_chunked_concat(m.skip(n), (k - 1) as nat, ch, j);
    }
}

/// Appends the TLG6 magic bytes.
fn push_magic(out: &mut Vec<u8>)
    ensures
        final(out)@ == old(out)@ + tlg6_magic(),
{
    out.push(84);
    out.push(76);
    out.push(71);
    out.push(54);
    out.push(46);
    out.push(48);
    out.push(0);
    out.push(114);
    out.push(97);
    out.push(119);
    out.push(26);
    assert(final(out)@ =~= old(out)@ + tlg6_magic());
}

/// The stream: the header with the colour count, the dimensions, the
/// largest bit length and the size of the compressed filter table, then the
/// table, then the channel codings.
#[verifier::spinoff_prover]
fn assemble(colors: u8, width: u32, height: u32, maxbits: u32, compressed: &Vec<u8>, memstream: &Vec<u8>) -> (out: Vec<u8>)
    requires
        compressed@.len() <= u32::MAX,
    ensures
        out@.len() == 31 + compressed@.len() + memstream@.len(),
        out@.take(11) == tlg6_magic(),
        out@[11] == colors,
        le_u32_at(out@, 15) == width,
        le_u32_at(out@, 19) == height,
        le_u32_at(out@, 23) == maxbits,
        le_u32_at(out@, 27) == compressed@.len(),
        out@.subrange(31, 31 + compressed@.len() as int) == compressed@,
        out@.skip(31 + compressed@.len() as int) == memstream@,
        out@ == tlg6_magic() + seq![colors, 0u8, 0u8, 0u8] + le_bytes(width) + le_bytes(height) + le_bytes(maxbits) + le_bytes(
            compressed@.len() as u32,
        ) + compressed@ + memstream@,
{
    let mut out: Vec<u8> = Vec::new();
    push_magic(&mut out);
    out.push(colors);
    out.push(0);
    out.push(0);
    out.push(0);
    push_u32_le(&mut out, width);
    push_u32_le(&mut out, height);
    push_u32_le(&mut out, maxbits);
    push_u32_le(&mut out, compressed.len() as u32);
    append_slice(&mut out, compressed.as_slice());
    append_slice(&mut out, memstream.as_slice());
    proof {
        let o = out@;
        let fs = compressed@.len() as int;
        lemma_le_bytes_value(width);
        lemma_le_bytes_value(height);
        lemma_le_bytes_value(maxbits);
        lemma_le_bytes_value(compressed.len() as u32);
        assert(o.take(11) =~= tlg6_magic());
        assert(o[15] == le_bytes(width)[0] && o[16] == le_bytes(width)[1] && o[17] == le_bytes(width)[2] && o[18]
            == le_bytes(width)[3]);
        assert(o[19] == le_bytes(height)[0] && o[20] == le_bytes(height)[1] && o[21] == le_bytes(height)[2] && o[22]
            == le_bytes(height)[3]);
        assert(o[23] == le_bytes(maxbits)[0] && o[24] == le_bytes(maxbits)[1] && o[25] == le_bytes(maxbits)[2] && o[26]
            == le_bytes(maxbits)[3]);
        assert(o[27] == le_bytes(compressed.len() as u32)[0] && o[28] == le_bytes(compressed.len() as u32)[1] && o[29]
            == le_bytes(compressed.len() as u32)[2] && o[30] == le_bytes(compressed.len() as u32)[3]);
        assert(o.subrange(31, 31 + fs) =~= compressed@);
        assert(o.skip(31 + fs) =~= memstream@);
        assert(o =~= tlg6_magic() + seq![colors, 0u8, 0u8, 0u8] + le_bytes(width) + le_bytes(height) + le_bytes(maxbits) + le_bytes(
            compressed@.len() as u32,
        ) + compressed@ + memstream@);
    }
    out
}

/// TLG6 encoder over raw pixels (`colors` bytes per pixel, red first, rows
/// top to bottom).
pub struct Tlg6Encoder {
    data: Vec<u8>,
    width: u32,
    height: u32,
    pixel: PixelLayout,
}

impl Tlg6Encoder {
    /// The raw pixels.
    pub closed spec fn pixels(&self) -> Seq<u8> {
        self.data@
    }

    /// The width in pixels.
    pub closed spec fn spec_width(&self) -> u32 {
        self.width
    }

    /// The height in pixels.
    pub closed spec fn spec_height(&self) -> u32 {
        self.height
    }

    /// The pixel layout.
    pub closed spec fn spec_layout(&self) -> PixelLayout {
        self.pixel
    }

    /// An encoder for a gray image (one byte per pixel).
    pub fn from_gray(data: Vec<u8>, width: u32, height: u32) -> (e: Tlg6Encoder)
        ensures
            e.pixels() == data@,
            e.spec_width() == width,
            e.spec_height() == height,
            e.spec_layout() == PixelLayout::Gray,
    {
        Tlg6Encoder { data, width, height, pixel: PixelLayout::Gray }
    }

    /// An encoder for an RGB image (three bytes per pixel).
    pub fn from_rgb(data: Vec<u8>, width: u32, height: u32) -> (e: Tlg6Encoder)
        ensures
            e.pixels() == data@,
            e.spec_width() == width,
            e.spec_height() == height,
            e.spec_layout() == PixelLayout::Rgb,
    {
        Tlg6Encoder { data, width, height, pixel: PixelLayout::Rgb }
    }

    /// An encoder for an RGBA image (four bytes per pixel).
    pub fn from_rgba(data: Vec<u8>, width: u32, height: u32) -> (e: Tlg6Encoder)
        ensures
            e.pixels() == data@,
            e.spec_width() == width,
            e.spec_height() == height,
            e.spec_layout() == PixelLayout::Rgba,
    {
        Tlg6Encoder { data, width, height, pixel: PixelLayout::Rgba }
    }

    /// An encoder for raw pixels in the given layout.
    pub fn from_raw(data: Vec<u8>, pixel_layout: PixelLayout, width: u32, height: u32) -> (e: Tlg6Encoder)
        ensures
            e.pixels() == data@,
            e.spec_width() == width,
            e.spec_height() == height,
            e.spec_layout() == pixel_layout,
    {
        match pixel_layout {
            PixelLayout::Gray => Tlg6Encoder::from_gray(data, width, height),
            PixelLayout::Rgb => Tlg6Encoder::from_rgb(data, width, height),
            PixelLayout::Rgba => Tlg6Encoder::from_rgba(data, width, height),
        }
    }

    /// The width in pixels.
    pub fn width(&self) -> (w: u32)
        ensures
            w == self.spec_width(),
    {
        self.width
    }

    /// The height in pixels.
    pub fn height(&self) -> (h: u32)
        ensures
            h == self.spec_height(),
    {
        self.height
    }

    /// The pixel layout.
    pub fn pixel_layout(&self) -> (l: PixelLayout)
        ensures
            l == self.spec_layout(),
    {
        self.pixel
    }

    /// The number of raw pixel bytes held.
    pub fn data_len(&self) -> (n: usize)
        ensures
            n == self.pixels().len(),
    {
        self.data.len()
    }

    /// Encodes the block row of lines `y..ylim`: the channel codings, their
    /// filter bytes, and the largest bit length among them.  Each coding
    /// holds what the coder stores for its channel of the row (as long as
    /// the row has fewer than `2^26` pixels).
    #[verifier::rlimit(60)]
    fn encode_row(&self, y: usize, ylim: usize) -> (r: Result<(Vec<u8>, Vec<u8>, u32), TlgError>)
        requires
            y < ylim <= self.height,
            ylim - y <= 8,
            y % 8 == 0,
            self.data@.len() >= self.width * self.height * spec_colors(self.pixel),
            self.width * self.height * spec_colors(self.pixel) + 4 <= usize::MAX,
            8 * self.width <= u32::MAX,
            1024 * self.width + 64 <= usize::MAX,
        ensures
            r is Err ==> r->Err_0 == TlgError::BitLengthOverflow,
            r is Err <==> row_overflows(self.data@, self.width as int, spec_colors(self.pixel) as int, y as int, (ylim - y) as int),
            r matches Ok((ch, ft, _)) ==> well_chunked(ch@, spec_colors(self.pixel)) && ft@.len() == ceil_div8(self.width as int),
            r matches Ok((ch, ft, _)) ==> forall|k: int| 0 <= k < ft@.len() ==> code_ok(#[trigger] ft@[k] as int, spec_colors(self.pixel) as int),
            r matches Ok((ch, ft, _)) ==> row_codes(ft@, self.data@, self.width as int, spec_colors(self.pixel) as int, y as int, (ylim - y) as int),
            r matches Ok((ch, _, mb)) ==> mb == max_bit_length(ch@, spec_colors(self.pixel)),
            r matches Ok((ch, _, _)) ==> ch@ == row_chunks(
                self.data@,
                self.width as int,
                spec_colors(self.pixel) as int,
                y as int,
                (ylim - y) as int,
                spec_colors(self.pixel),
            ),
            r matches Ok((ch, ft, _)) ==> (row_runs_short(
                self.data@,
                self.width as int,
                spec_colors(self.pixel) as int,
                y as int,
                (ylim - y) as int,
            ) ==> forall|c: int|
                0 <= c < spec_colors(self.pixel) ==> #[trigger] local_chunk_ok(
                    ch@,
                    chan_walk(ch@, 0, c as nat),
                    self.data@,
                    self.width as int,
                    spec_colors(self.pixel) as int,
                    ft@,
                    y as int,
                    (ylim - y) as int,
                    c,
                )),
    {
        let colors = self.pixel.colors();
        let width = self.width as usize;
        let height = self.height as usize;
        let bh = ylim - y;
        let ghost img = self.data@;
        let ghost cc = colors as int;
        let ghost w = width as int;
        let mut r0: Vec<i8> = Vec::new();
        let mut r1: Vec<i8> = Vec::new();
        let mut r2: Vec<i8> = Vec::new();
        let mut r3: Vec<i8> = Vec::new();
        let mut fts: Vec<u8> = Vec::new();
        let mut x: usize = 0;
        let mut xp: usize = 0;
        while x < width
            invariant
                colors == spec_colors(self.pixel),
                colors == 1 || colors == 3 || colors == 4,
                width == self.width,
                height == self.height,
                img == self.data@,
                cc == colors,
                w == width,
                8 * width <= u32::MAX,
                1024 * width + 64 <= usize::MAX,
                y < ylim <= height,
                y % 8 == 0,
                bh == ylim - y,
                bh <= 8,
                self.data@.len() >= width * height * colors,
                width * height * colors + 4 <= usize::MAX,
                x <= width,
                x % 8 == 0 || x == width,
                x < width ==> x == 8 * xp,
                xp == ceil_div8(x as int),
                fts@.len() == xp,
                r0@.len() == bh * x,
                colors >= 3 ==> r1@.len() == bh * x && r2@.len() == bh * x,
                colors == 4 ==> r3@.len() == bh * x,
                forall|k: int| 0 <= k < fts@.len() ==> code_ok(#[trigger] fts@[k] as int, cc),
                row_codes(fts@, img, w, cc, y as int, bh as int),
                row_part_ok(r0@, img, w, cc, fts@, y as int, bh as int, 0, x as int),
                colors >= 3 ==> row_part_ok(r1@, img, w, cc, fts@, y as int, bh as int, 1, x as int),
                colors >= 3 ==> row_part_ok(r2@, img, w, cc, fts@, y as int, bh as int, 2, x as int),
                colors == 4 ==> row_part_ok(r3@, img, w, cc, fts@, y as int, bh as int, 3, x as int),
            decreases width - x,
        {
            let xlim = if width - x > 8 {
                x + 8
            } else {
                width
            };
            let (f, b, g, r, a) = encode_block(&self.data, width, height, colors, x, xlim, y, ylim, xp);
            assert((xlim - x) * bh + bh * x == bh * xlim) by (nonlinear_arith);
            let ghost bw = (xlim - x) as int;
            proof {
                assert(x == 8 * xp);
                assert(bw == super::image::block_w(w, xp as int));
                assert(r0@.len() == 8 * bh * xp) by (nonlinear_arith)
                    requires
                        r0@.len() == bh * x,
                        x == 8 * xp,
                ;
                assert((xlim - x) * (ylim - y) == bw * bh);
                lemma_row_part_push(r0@, b@, img, w, cc, fts@, f, y as int, bh as int, 0, x as int, xp as int, bw);
                if colors >= 3 {
                    lemma_row_part_push(r1@, g@, img, w, cc, fts@, f, y as int, bh as int, 1, x as int, xp as int, bw);
                    lemma_row_part_push(r2@, r@, img, w, cc, fts@, f, y as int, bh as int, 2, x as int, xp as int, bw);
                }
                if colors == 4 {
                    lemma_row_part_push(r3@, a@, img, w, cc, fts@, f, y as int, bh as int, 3, x as int, xp as int, bw);
                }
            }
            let ghost v0 = r0@;
            let ghost v1 = r1@;
            let ghost v2 = r2@;
            let ghost v3 = r3@;
            r0.extend_from_slice(b.as_slice());
            if colors >= 3 {
                r1.extend_from_slice(g.as_slice());
                r2.extend_from_slice(r.as_slice());
            }
            if colors == 4 {
                r3.extend_from_slice(a.as_slice());
            }
            proof {
                assert(r0@ =~= v0 + b@);
                if colors >= 3 {
                    assert(r1@ =~= v1 + g@);
                    assert(r2@ =~= v2 + r@);
                }
                if colors == 4 {
                    assert(r3@ =~= v3 + a@);
                }
            }
            let ghost f0 = fts@;
            fts.push(f);
            proof {
                assert forall|k: int| 0 <= k < fts@.len() implies #[trigger] fts@[k] as int == block_code(img, w, cc, 8 * k, block_w(w, k), y as int, bh as int, k) by {
                    if k < f0.len() {
                        assert(fts@[k] == f0[k]);
                    }
                }
            }
            x = xlim;
            xp = xp + 1;
        }
        let mut chunks: Vec<u8> = Vec::new();
        let mut maxbits: u32 = 0;
        let mut c: usize = 0;
        proof {
            assert(bh * x == bh * width);
            lemma_row_res(r0@, fts@, img, w, cc, y as int, bh as int, 0);
            if colors >= 3 {
                lemma_row_res(r1@, fts@, img, w, cc, y as int, bh as int, 1);
                lemma_row_res(r2@, fts@, img, w, cc, y as int, bh as int, 2);
            }
            if colors == 4 {
                lemma_row_res(r3@, fts@, img, w, cc, y as int, bh as int, 3);
            }
        }
        proof {
            assert(bh * width <= 8 * width) by (nonlinear_arith)
                requires
                    bh <= 8,
            ;
            assert(bh * width == bh * x);
        }
        while c < colors
            invariant
                colors == spec_colors(self.pixel),
                colors == 1 || colors == 3 || colors == 4,
                c <= colors,
                8 * width <= u32::MAX,
                1024 * width + 64 <= usize::MAX,
                bh * width <= 8 * width,
                img == self.data@,
                cc == colors,
                w == width,
                width == self.width,
                bh == ylim - y,
                r0@.len() == bh * width,
                colors >= 3 ==> r1@.len() == bh * width && r2@.len() == bh * width,
                colors == 4 ==> r3@.len() == bh * width,
                fts@.len() == ceil_div8(width as int),
                row_part_ok(r0@, img, w, cc, fts@, y as int, bh as int, 0, w),
                colors >= 3 ==> row_part_ok(r1@, img, w, cc, fts@, y as int, bh as int, 1, w),
                colors >= 3 ==> row_part_ok(r2@, img, w, cc, fts@, y as int, bh as int, 2, w),
                colors == 4 ==> row_part_ok(r3@, img, w, cc, fts@, y as int, bh as int, 3, w),
                well_chunked(chunks@, c as nat),
                maxbits == max_bit_length(chunks@, c as nat),
                chunks@ == row_chunks(img, w, cc, y as int, bh as int, c as nat),
                r0@ == row_res(img, w, cc, y as int, bh as int, 0),
                colors >= 3 ==> r1@ == row_res(img, w, cc, y as int, bh as int, 1),
                colors >= 3 ==> r2@ == row_res(img, w, cc, y as int, bh as int, 2),
                colors == 4 ==> r3@ == row_res(img, w, cc, y as int, bh as int, 3),
                forall|c2: int| 0 <= c2 < c ==> #[trigger] golomb_bits(row_res(img, w, cc, y as int, bh as int, c2), 0).len() < 0x4000_0000,
                row_runs_short(img, w, cc, y as int, bh as int) ==> forall|c2: int| 0 <= c2 < c ==> #[trigger] local_chunk_ok(
                    chunks@,
                    chan_walk(chunks@, 0, c2 as nat),
                    img,
                    w,
                    cc,
                    fts@,
                    y as int,
                    bh as int,
                    c2,
                ),
            decreases colors - c,
        {
            let row = if c == 0 {
                &r0
            } else if c == 1 {
                &r1
            } else if c == 2 {
                &r2
            } else {
                &r3
            };
            assert(row@.len() == bh * width);
            assert(row_part_ok(row@, img, w, cc, fts@, y as int, bh as int, c as int, w));
            let mut bs = TLG6BitStream::new();
            proof {
                assert(128 * (bh * width) <= 1024 * width) by (nonlinear_arith)
                    requires
                        bh * width <= 8 * width,
                ;
                assert forall|t: int| 0 <= t < row@.len() implies #[trigger] run_len(row@, t) <= u32::MAX by {
                    lemma_run_bound(row@, t);
                }
            }
            compress_values_golomb(&mut bs, row.as_slice());
            assert(row@ == row_res(img, w, cc, y as int, bh as int, c as int));
            assert(bs@.len() <= 1 + 128 * row@.len());
            assert(bs@.len() <= 1 + 128 * (8 * width)) by (nonlinear_arith)
                requires
                    bs@.len() <= 1 + 128 * row@.len(),
                    row@.len() == bh * width,
                    bh * width <= 8 * width,
            ;
            if bs.byte_len() >= 0x800_0000 {
                assert(golomb_bits(row_res(img, w, cc, y as int, bh as int, c as int), 0).len() >= 0x4000_0000);
                return Err(TlgError::BitLengthOverflow);
            }
            let bit_length = bs.get_bit_length();
            let ghost bits = bs@;
            if maxbits < bit_length {
                maxbits = bit_length;
            }
            let bytes = bs.take_data();
            let ghost before = chunks@;
            let mut ch: Vec<u8> = Vec::new();
            push_u32_le(&mut ch, bit_length);
            append_slice(&mut ch, bytes.as_slice());
            proof {
                assert(ch@ =~= le_bytes(bit_length) + bytes@);
                lemma_one_chunk(bit_length, bytes@);
                if row_runs_short(img, w, cc, y as int, bh as int) {
                    assert(runs_short(row_res(img, w, cc, y as int, bh as int, c as int)));
                    assert(bits == golomb_bits(row@, 0));
                    lemma_golomb_roundtrip(row@, bytes@);
                    lemma_le_bytes_value(bit_length);
                    assert(ch@[0] == le_bytes(bit_length)[0] && ch@[1] == le_bytes(bit_length)[1] && ch@[2] == le_bytes(bit_length)[2]
                        && ch@[3] == le_bytes(bit_length)[3]);
                    assert(le_u32_at(ch@, 0) == bit_length);
                    assert(bytes@.len() == chunk_len(bit_length as int));
                    super::image::lemma_one_chunk_holds(bit_length, bytes@, row@, (bh * width) as nat);
                    assert(local_vals_ok(row@, img, w, cc, fts@, y as int, bh as int, c as int));
                    assert(local_chunk_ok(ch@, 0, img, w, cc, fts@, y as int, bh as int, c as int));
                    lemma_chunks_append(before, c as nat, ch@, img, w, cc, fts@, y as int, bh as int);
                }
            }
            append_slice(&mut chunks, ch.as_slice());
            proof {
                assert(ch@ == channel_chunk(img, w, cc, y as int, bh as int, c as int));
                lemma_chunked_concat(before, c as nat, ch@, 1);
                lemma_max_bits_concat(before, c as nat, ch@, 1);
                lemma_le_bytes_value(bit_length);
                assert(ch@[0] == le_bytes(bit_length)[0] && ch@[1] == le_bytes(bit_length)[1] && ch@[2] == le_bytes(bit_length)[2]
                    && ch@[3] == le_bytes(bit_length)[3]);
                assert(le_u32_at(ch@, 0) == bit_length);
                assert(max_bit_length(ch@.skip(4 + chunk_len(le_u32_at(ch@, 0))), 0) == 0);
                assert(max_bit_length(ch@, 1) == bit_length);
            }
            assert(golomb_bits(row_res(img, w, cc, y as int, bh as int, c as int), 0).len() < 0x4000_0000);
            c = c + 1;
        }
        assert(!row_overflows(img, w, cc, y as int, bh as int));
        Ok((chunks, fts, maxbits))
    }

    /// Encodes the image (see `encode`) and appends the stream to `out`,
    /// leaving the bytes before it as they were; `out` is unchanged where
    /// encoding fails.
    pub fn encode_to(&self, out: &mut Vec<u8>) -> (r: Result<(), TlgError>)
        requires
            self.pixels().len() >= self.spec_width() * self.spec_height() * spec_colors(self.spec_layout()),
            self.spec_width() * self.spec_height() * spec_colors(self.spec_layout()) + 4 <= usize::MAX,
            8 * self.spec_width() <= u32::MAX,
            1024 * self.spec_width() + 64 <= usize::MAX,
        ensures
            r is Ok ==> final(out)@ == old(out)@ + tlg6_stream(
                self.pixels(),
                self.spec_width(),
                self.spec_height(),
                spec_colors(self.spec_layout()) as int,
            ),
            r is Err ==> *final(out) == *old(out),
            r is Err ==> r->Err_0 == TlgError::BitLengthOverflow || r->Err_0 == TlgError::ImageTooLarge,
            (r is Err && r->Err_0 == TlgError::BitLengthOverflow) <==> image_overflows(
                self.pixels(),
                self.spec_width() as int,
                self.spec_height() as int,
                spec_colors(self.spec_layout()) as int,
            ),
            (r is Err && r->Err_0 == TlgError::ImageTooLarge) <==> (!image_overflows(
                self.pixels(),
                self.spec_width() as int,
                self.spec_height() as int,
                spec_colors(self.spec_layout()) as int,
            ) && filter_table(
                filter_codes(
                    self.pixels(),
                    self.spec_width() as int,
                    self.spec_height() as int,
                    spec_colors(self.spec_layout()) as int,
                ),
            ).len() > u32::MAX),
    {
        match self.encode() {
            Ok(bytes) => {
                append_slice(out, bytes.as_slice());
                Ok(())
            },
            Err(e) => Err(e),
        }
    }

    /// Encodes the image as a TLG6 stream.  It fails with
    /// `BitLengthOverflow` exactly where a channel's coding of a block row
    /// takes `2^30` bits or more (`image_overflows`), and otherwise only
    /// where the filter table does not fit in four gigabytes.  The stream's header holds the
    /// image's colour count, width and height and the largest bit length of
    /// its channel codings; its filter table decompresses to the filter
    /// bytes the coder picks (`filter_codes`); and, for an image at least
    /// one pixel wide (or no pixel high), the decoder accepts the stream and
    /// reports the same dimensions and layout.
    #[verifier::spinoff_prover]
    #[verifier::rlimit(80)]
    pub fn encode(&self) -> (r: Result<Vec<u8>, TlgError>)
        requires
            self.pixels().len() >= self.spec_width() * self.spec_height() * spec_colors(self.spec_layout()),
            self.spec_width() * self.spec_height() * spec_colors(self.spec_layout()) + 4 <= usize::MAX,
            8 * self.spec_width() <= u32::MAX,
            1024 * self.spec_width() + 64 <= usize::MAX,
        ensures
            r is Err ==> r->Err_0 == TlgError::BitLengthOverflow || r->Err_0 == TlgError::ImageTooLarge,
            (r is Err && r->Err_0 == TlgError::ImageTooLarge) <==> (!image_overflows(
                self.pixels(),
                self.spec_width() as int,
                self.spec_height() as int,
                spec_colors(self.spec_layout()) as int,
            ) && filter_table(
                filter_codes(
                    self.pixels(),
                    self.spec_width() as int,
                    self.spec_height() as int,
                    spec_colors(self.spec_layout()) as int,
                ),
            ).len() > u32::MAX),
            (r is Err && r->Err_0 == TlgError::BitLengthOverflow) <==> image_overflows(
                self.pixels(),
                self.spec_width() as int,
                self.spec_height() as int,
                spec_colors(self.spec_layout()) as int,
            ),
            r matches Ok(out) ==> out@.len() >= 31 && out@.take(11) == tlg6_magic() && out@[11] == spec_colors(self.spec_layout())
                && le_u32_at(out@, 15) == self.spec_width() && le_u32_at(out@, 19) == self.spec_height(),
            r matches Ok(out) ==> ((self.spec_width() > 0 || self.spec_height() == 0) && self.spec_width() * self.spec_height()
                * 4 <= usize::MAX ==> tlg6_decode_spec(out@) == Ok::<ImageInfo, TlgError>(
                ImageInfo { width: self.spec_width(), height: self.spec_height(), pixel_layout: self.spec_layout() },
            )),
            r matches Ok(out) ==> ((self.spec_width() > 0 || self.spec_height() == 0) && self.spec_width() * self.spec_height()
                * 4 <= usize::MAX && image_runs_short(
                self.pixels(),
                self.spec_width() as int,
                self.spec_height() as int,
                spec_colors(self.spec_layout()) as int,
            ) ==> tlg6_coded(out@, self.pixels())),
            r matches Ok(out) ==> out@ == tlg6_stream(
                self.pixels(),
                self.spec_width(),
                self.spec_height(),
                spec_colors(self.spec_layout()) as int,
            ),
            r matches Ok(out) ==> out@.subrange(31, 31 + le_u32_at(out@, 27)) == filter_table(
                filter_codes(
                    self.pixels(),
                    self.spec_width() as int,
                    self.spec_height() as int,
                    spec_colors(self.spec_layout()) as int,
                ),
            ),
            r matches Ok(out) ==> le_u32_at(out@, 23) == max_bit_length(
                out@.skip(31 + le_u32_at(out@, 27)),
                (ceil_div8(self.spec_height() as int) * spec_colors(self.spec_layout())) as nat,
            ),
            r matches Ok(out) ==> lz_decode(out@.subrange(31, 31 + le_u32_at(out@, 27)), lzss_train(), 0).0 == filter_codes(
                self.pixels(),
                self.spec_width() as int,
                self.spec_height() as int,
                spec_colors(self.spec_layout()) as int,
            ),
    {
        let colors = self.pixel.colors();
        let width = self.width as usize;
        let height = self.height as usize;
        let mut memstream: Vec<u8> = Vec::new();
        let mut fts: Vec<u8> = Vec::new();
        let mut maxbits: u32 = 0;
        let mut y: usize = 0;
        let ghost mut rows_done: nat = 0;
        while y < height
            invariant
                colors == spec_colors(self.pixel),
                width == self.width,
                height == self.height,
                self.data@.len() >= width * height * colors,
                width * height * colors + 4 <= usize::MAX,
                8 * width <= u32::MAX,
                1024 * width + 64 <= usize::MAX,
                y <= height,
                y % 8 == 0 || y == height,
                rows_done == ceil_div8(y as int),
                well_chunked(memstream@, (rows_done * colors) as nat),
                maxbits == max_bit_length(memstream@, (rows_done * colors) as nat),
                memstream@ == image_chunks(self.data@, width as int, height as int, colors as int, rows_done),
                forall|r2: int| 0 <= r2 < rows_done ==> !#[trigger] row_overflows(
                    self.data@,
                    width as int,
                    colors as int,
                    8 * r2,
                    row_height(height as int, r2),
                ),
                fts@.len() == rows_done * ceil_div8(width as int),
                forall|k: int| 0 <= k < fts@.len() ==> code_ok(#[trigger] fts@[k] as int, colors as int),
                forall|k: int| 0 <= k < fts@.len() ==> #[trigger] fts@[k] as int == block_code(
                    self.data@,
                    width as int,
                    colors as int,
                    8 * (k % ceil_div8(width as int)),
                    block_w(width as int, k % ceil_div8(width as int)),
                    8 * (k / ceil_div8(width as int)),
                    row_height(height as int, k / ceil_div8(width as int)),
                    k % ceil_div8(width as int),
                ),
                image_runs_short(self.data@, width as int, height as int, colors as int) ==> forall|r2: int, c: int|
                    0 <= r2 < rows_done && 0 <= c < colors ==> #[trigger] row_chunk_ok(
                        memstream@,
                        chan_walk(memstream@, 0, (r2 * colors + c) as nat),
                        self.data@,
                        width as int,
                        height as int,
                        colors as int,
                        fts@,
                        r2,
                        c,
                    ),
            decreases height - y,
        {
            let ylim = if height - y > 8 {
                y + 8
            } else {
                height
            };
            proof {
                assert(row_height(height as int, rows_done as int) == ylim - y);
                assert(y == 8 * rows_done);
            }
            let (ch, f, mb) = match self.encode_row(y, ylim) {
                Ok(v) => v,
                Err(e) => {
                    proof {
                        assert(row_overflows(self.data@, width as int, colors as int, 8 * (rows_done as int), row_height(height as int, rows_done as int)));
                        assert(rows_done < ceil_div8(height as int));
                    }
                    return Err(e);
                },
            };
            let ghost m0 = memstream@;
            append_slice(&mut memstream, ch.as_slice());
            proof {
                assert(row_height(height as int, rows_done as int) == ylim - y);
                assert(y == 8 * rows_done);
                assert(memstream@ == image_chunks(self.data@, width as int, height as int, colors as int, rows_done + 1));
            }
            let ghost f0 = fts@;
            append_slice(&mut fts, f.as_slice());
            if maxbits < mb {
                maxbits = mb;
            }
            proof {
                assert forall|k: int| 0 <= k < fts@.len() implies code_ok(#[trigger] fts@[k] as int, colors as int) by {
                    if k < f0.len() {
                        assert(fts@[k] == f0[k]);
                    } else {
                        assert(fts@[k] == f@[k - f0.len()]);
                    }
                }
                lemma_codes_append(f0, f@, fts@, self.data@, width as int, height as int, colors as int, rows_done as int, y as int, ylim as int);
                if image_runs_short(self.data@, width as int, height as int, colors as int) {
                    assert(row_height(height as int, rows_done as int) == ylim - y);
                    assert(y == 8 * rows_done);
                    assert(row_runs_short(self.data@, width as int, colors as int, 8 * (rows_done as int), row_height(height as int, rows_done as int)));
                    lemma_stream_append(m0, ch@, self.data@, width as int, height as int, colors as int, f0, f@, rows_done as int);
                }
                lemma_chunked_concat(m0, (rows_done * colors) as nat, ch@, colors as nat);
                lemma_max_bits_concat(m0, (rows_done * colors) as nat, ch@, colors as nat);
                assert(rows_done * colors + colors == (rows_done + 1) * colors) by (nonlinear_arith);
                assert(rows_done * ceil_div8(width as int) + ceil_div8(width as int) == (rows_done + 1) * ceil_div8(width as int))
                    by (nonlinear_arith);
                rows_done = rows_done + 1;
            }
            y = ylim;
        }
        assert(!image_overflows(self.data@, width as int, height as int, colors as int));
        let text = lzss_text();
        let mut comp = SlideCompressor::new();
        comp.encode(text.as_slice());
        let compressed = comp.encode(fts.as_slice());
        proof {
            lemma_train_window(text@);
            assert(text@ == lzss_train());
            assert(rows_done == ceil_div8(height as int));
            assert(fts@ =~= filter_codes(self.data@, width as int, height as int, colors as int));
            assert(compressed@ == filter_table(filter_codes(self.data@, width as int, height as int, colors as int))) by {
                reveal(filter_table);
            }
        }
        if compressed.len() > 0xffff_ffff {
            return Err(TlgError::ImageTooLarge);
        }
        let out = assemble(colors as u8, self.width, self.height, maxbits, &compressed, &memstream);
        proof {
            let o = out@;
            let fs = compressed@.len() as int;
            lemma_train_window(text@);
            assert(text@ == lzss_train());
            assert(lz_decode(compressed@, lzss_train(), 0).0 == fts@);
            assert(rows_done == ceil_div8(height as int));
            assert(fts@ =~= filter_codes(self.data@, width as int, height as int, colors as int));
            assert(o.subrange(31, 31 + le_u32_at(o, 27)) == compressed@);
            if (self.width > 0 || self.height == 0) && self.width * self.height * 4 <= usize::MAX {
                let rows = ceil_div8(height as int);
                assert(rows_done == rows);
                if self.height > 0 {
                    assert(x_blocks(width as int) == ceil_div8(width as int));
                }
                assert(fts@.len() >= rows * x_blocks(width as int)) by (nonlinear_arith)
                    requires
                        fts@.len() == rows * ceil_div8(width as int),
                        rows >= 0,
                        rows == 0 || x_blocks(width as int) == ceil_div8(width as int),
                ;
                lemma_scan_ok(o, 31 + fs, 0, rows, colors as int, 0, fts@.len() as int, x_blocks(width as int));
                if image_runs_short(self.data@, width as int, height as int, colors as int) {
                    let pre = o.take(31 + fs);
                    assert(o =~= pre + memstream@);
                    lemma_stream_out(pre, memstream@, (rows_done * colors) as nat, self.data@, width as int, height as int,
                        colors as int, fts@, rows);
                    reveal(tlg6_coded);
                    assert(o[11] == colors);
                }
            }
        }
        Ok(out)
    }
}

} // verus!
