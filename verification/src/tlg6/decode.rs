//! TLG6 decoding: per-line reconstruction from residuals.

use vstd::prelude::*;
use crate::bytes::le_u32_at;
use crate::slide::{lz_decode, SlideDecoder};
use crate::tlg5::decode::read_u32_at;
use crate::tlg5::layout_of_colors;
use crate::tlg_type::{spec_colors, ImageInfo, PixelLayout, TlgError};
use super::bitstream::TLG6BitReader;
use super::filter::{inverse_color_filter, inverse_filter};
use super::golomb::{channel_read, decode_golomb_channel};
use super::image::{
    lemma_chan_walk_add, tlg6_coded, chunk_coded, base_word, block_w, chan_walk, chunk_holds, code_ok, enc_pos, lemma_enc_pos_range, lemma_line_back, nb_word, padded,
    row_chunk_ok, row_height, row_slots_hold, row_vals_ok, slot_holds, stored_res, target_lane, target_word, lemma_target_lanes,
};
use super::predict::{channel_offset, spec_pixel_channel};
use super::packed::{avg_predict_add, lane, med_lane, med_predict_add};
use super::{ceil_div8, chunk_len, lzss_train, t6_scan, tlg6_decode_spec, tlg6_magic, x_blocks, H_BLOCK_SIZE, W_BLOCK_SIZE};

verus! {

/// The little-endian word at `off`, or 0 where four bytes do not fit.
pub open spec fn le32_or_zero(data: Seq<u8>, off: int) -> u32 {
    if 0 <= off && off + 4 <= data.len() {
        le_u32_at(data, off) as u32
    } else {
        0
    }
}

/// Reads the little-endian word at `offset`, or 0 where four bytes do not
/// fit.
pub fn read_u32_le(data: &[u8], offset: usize) -> (v: u32)
    ensures
        v == le32_or_zero(data@, offset as int),
{
    if offset > data.len() || data.len() - offset < 4 {
        0
    } else {
        data[offset] as u32 + data[offset + 1] as u32 * 256 + data[offset + 2] as u32 * 65536 + data[offset + 3] as u32
            * 16777216
    }
}

/// The four little-endian bytes of `v`.
pub open spec fn word_bytes(v: u32) -> Seq<u8> {
    crate::bytes::le_bytes(v)
}

/// Writes the little-endian word `value` at `offset` where four bytes fit;
/// leaves `data` as it is otherwise.
pub fn write_u32_le(data: &mut [u8], offset: usize, value: u32)
    ensures
        final(data)@ == if offset + 4 <= old(data)@.len() {
            old(data)@.subrange(0, offset as int) + word_bytes(value) + old(data)@.subrange(offset + 4, old(data)@.len() as int)
        } else {
            old(data)@
        },
{
    if offset <= data.len() && data.len() - offset >= 4 {
        data[offset] = (value % 256) as u8;
        data[offset + 1] = ((value / 256) % 256) as u8;
        data[offset + 2] = ((value / 65536) % 256) as u8;
        data[offset + 3] = (value / 16777216) as u8;
        proof {
            assert(data@ =~= old(data)@.subrange(0, offset as int) + word_bytes(value) + old(data)@.subrange(
                offset + 4,
                old(data)@.len() as int,
            ));
        }
    }
}

/// The word whose bytes, low first, are `l0`, `l1`, `l2`, `l3`.
pub open spec fn pack4(l0: int, l1: int, l2: int, l3: int) -> u32 {
    (l0 + 256 * l1 + 65536 * l2 + 16777216 * l3) as u32
}

pub(crate) proof fn lemma_pack4(x: u32, l0: u32, l1: u32, l2: u32, l3: u32)
    by (bit_vector)
    requires
        l0 < 256,
        l1 < 256,
        l2 < 256,
        l3 < 256,
        x == l0 + 256 * l1 + 65536 * l2 + 16777216 * l3,
    ensures
        lane(x, 0) == l0,
        lane(x, 1) == l1,
        lane(x, 2) == l2,
        lane(x, 3) == l3,
{
}

pub(crate) proof fn lemma_lanes_word(x: u32)
    by (bit_vector)
    ensures
        x == lane(x, 0) + 256 * lane(x, 1) + 65536 * lane(x, 2) + 16777216 * lane(x, 3),
{
}

/// The residual word of pixel slot `k` under filter `ft`: the slot's four
/// residuals through the inverse filter, each modulo 256, blue in the low
/// byte; 0 for a slot outside the residuals.
pub open spec fn residual_word(pixelbuf: Seq<i8>, k: int, ft: int) -> u32 {
    if 0 <= k && 4 * k + 4 <= pixelbuf.len() {
        let (b, g, r, a) = inverse_filter(
            ft,
            pixelbuf[4 * k] as int,
            pixelbuf[4 * k + 1] as int,
            pixelbuf[4 * k + 2] as int,
            pixelbuf[4 * k + 3] as int,
        );
        pack4(b % 256, g % 256, r % 256, a % 256)
    } else {
        0
    }
}

/// The residual slot of column `c` of a line: blocks follow each other
/// `skip` slots apart, odd blocks shifted by `oddskip` rows, and the line
/// runs forwards or backwards within each block.
pub open spec fn slot_of(c: int, width: int, skip: int, oddskip: int, fwd: bool) -> int {
    let i = c / 8;
    let t = c % 8;
    let w = if width - 8 * i > 8 {
        8
    } else {
        width - 8 * i
    };
    skip * i + (if i % 2 == 1 {
        oddskip * w
    } else {
        0
    }) + (if fwd {
        t
    } else {
        w - 1 - t
    })
}

/// The predicted pixel plus residual: median edge detector or average of
/// left and upper neighbour, byte by byte.
pub open spec fn predict_word(use_med: bool, p: u32, u: u32, up: u32, res: u32) -> u32 {
    if use_med {
        pack4(
            (med_lane(p, u, up, 0) + lane(res, 0)) % 256,
            (med_lane(p, u, up, 1) + lane(res, 1)) % 256,
            (med_lane(p, u, up, 2) + lane(res, 2)) % 256,
            (med_lane(p, u, up, 3) + lane(res, 3)) % 256,
        )
    } else {
        pack4(
            ((lane(p, 0) + lane(u, 0) + 1) / 2 + lane(res, 0)) % 256,
            ((lane(p, 1) + lane(u, 1) + 1) / 2 + lane(res, 1)) % 256,
            ((lane(p, 2) + lane(u, 2) + 1) / 2 + lane(res, 2)) % 256,
            ((lane(p, 3) + lane(u, 3) + 1) / 2 + lane(res, 3)) % 256,
        )
    }
}

/// The parameters of one line's reconstruction.
pub struct LineParams {
    pub width: usize,
    pub start_block: usize,
    pub block_limit: usize,
    pub skip: usize,
    pub initialp: u32,
    pub oddskip: isize,
    pub fwd: bool,
}

/// The first column a line reconstruction writes.
pub open spec fn first_col(lp: LineParams) -> int {
    8 * lp.start_block
}

/// The column after the last one a line reconstruction writes.
pub open spec fn end_col(lp: LineParams) -> int {
    if 8 * lp.block_limit < lp.width {
        8 * lp.block_limit
    } else {
        lp.width as int
    }
}

/// Pixel `c` of a reconstructed line, from the line above `prev`, the
/// pixel left of the first column `p0` and the one above that `up0`.
pub open spec fn line_pixel(
    lp: LineParams,
    prev: Seq<u8>,
    ft: Seq<u8>,
    pb: Seq<i8>,
    p0: u32,
    up0: u32,
    c: int,
) -> u32
    decreases c - first_col(lp),
{
    let c0 = first_col(lp);
    let p = if c <= c0 {
        p0
    } else {
        line_pixel(lp, prev, ft, pb, p0, up0, c - 1)
    };
    let up = if c <= c0 {
        up0
    } else {
        le32_or_zero(prev, 4 * (c - 1))
    };
    let u = le32_or_zero(prev, 4 * c);
    let f = ft[c / 8];
    let res = residual_word(pb, slot_of(c, lp.width as int, lp.skip as int, lp.oddskip as int, lp.fwd), f as int / 2);
    predict_word(f % 2 == 0, p, u, up, res)
}

/// A small value modulo 256.
fn byte_of(x: i32) -> (r: u32)
    requires
        -1024 < x < 1024,
    ensures
        r == x % 256,
        r < 256,
{
    ((x + 1024) as u32) % 256
}

/// The residual word of one pixel slot.
fn residual_at(pixelbuf: &[i8], k: i64, ft: u8) -> (r: u32)
    ensures
        r == residual_word(pixelbuf@, k as int, ft as int),
{
    if k < 0 || k >= (pixelbuf.len() / 4) as i64 {
        return 0;
    }
    let idx = (k as usize) * 4;
    assert(4 * k + 4 <= pixelbuf@.len());
    let (b, g, r, a) = inverse_color_filter(ft, pixelbuf[idx], pixelbuf[idx + 1], pixelbuf[idx + 2], pixelbuf[idx + 3]);
    let bb = byte_of(b);
    let gb = byte_of(g);
    let rb = byte_of(r);
    let ab = byte_of(a);
    let w = bb + gb * 256 + rb * 65536 + ab * 16777216;
    assert(w == pack4(bb as int, gb as int, rb as int, ab as int));
    w
}

/// The pixel at column `col`, from the pixel left of it `p` and the one
/// above that `up`.
#[verifier::rlimit(30)]
fn column_pixel(
    prevline: &[u8],
    width: usize,
    filter_types: &[u8],
    skipblockbytes: usize,
    pixelbuf: &[i8],
    oddskip: isize,
    fwd: bool,
    col: usize,
    p: u32,
    up: u32,
) -> (pixel: u32)
    requires
        col < width,
        col / 8 < filter_types@.len(),
        width <= u32::MAX,
        4 * width <= usize::MAX,
        skipblockbytes <= 64,
        -8 <= oddskip <= 8,
    ensures
        pixel == predict_word(
            filter_types@[(col / 8) as int] % 2 == 0,
            p,
            le32_or_zero(prevline@, 4 * col),
            up,
            residual_word(
                pixelbuf@,
                slot_of(col as int, width as int, skipblockbytes as int, oddskip as int, fwd),
                filter_types@[(col / 8) as int] as int / 2,
            ),
        ),
{
    let i = col / 8;
    let t = col % 8;
    let w: usize = if width - 8 * i > 8 { 8 } else { width - 8 * i };
    assert(skipblockbytes * i <= 64 * 0x2000_0000) by (nonlinear_arith)
        requires
            skipblockbytes <= 64,
            i <= 0x2000_0000,
    ;
    let mut in_off: i64 = skipblockbytes as i64 * i as i64;
    if i % 2 == 1 {
        assert(-64 <= oddskip * w <= 64) by (nonlinear_arith)
            requires
                -8 <= oddskip <= 8,
                w <= 8,
        ;
        in_off = in_off + oddskip as i64 * w as i64;
    }
    if fwd {
        in_off = in_off + t as i64;
    } else {
        in_off = in_off + (w - 1 - t) as i64;
    }
    let ft = filter_types[i];
    let residual = residual_at(pixelbuf, in_off, ft >> 1);
    let u = read_u32_le(prevline, col * 4);
    let pixel = if (ft & 1) == 0 {
        med_predict_add(p, u, up, residual)
    } else {
        avg_predict_add(p, u, residual)
    };
    proof {
        assert(ft >> 1 == ft / 2 && ((ft & 1) == 0) == (ft % 2 == 0)) by (bit_vector);
        assert(in_off == slot_of(col as int, width as int, skipblockbytes as int, oddskip as int, fwd));
        lemma_lanes_word(pixel);
        assert(lane(pixel, 0) < 256 && lane(pixel, 1) < 256 && lane(pixel, 2) < 256 && lane(pixel, 3) < 256) by (bit_vector);
    }
    pixel
}

/// Writing a word changes only its four bytes, and reads back.
proof fn lemma_write_word(old: Seq<u8>, new: Seq<u8>, off: int, v: u32)
    requires
        0 <= off,
        off + 4 <= old.len(),
        new == old.subrange(0, off) + word_bytes(v) + old.subrange(off + 4, old.len() as int),
    ensures
        new.len() == old.len(),
        forall|k: int| 0 <= k < old.len() && (k < off || k >= off + 4) ==> new[k] == old[k],
        le32_or_zero(new, off) == v,
{
    crate::bytes::lemma_le_bytes_value(v);
    assert(new[off] == word_bytes(v)[0] && new[off + 1] == word_bytes(v)[1] && new[off + 2] == word_bytes(v)[2]
        && new[off + 3] == word_bytes(v)[3]);
}

/// A word reads the same from two sequences that agree on its bytes.
proof fn lemma_le32_same(a: Seq<u8>, b: Seq<u8>, off: int)
    requires
        a.len() == b.len(),
        0 <= off,
        off + 4 <= a.len(),
        a[off] == b[off],
        a[off + 1] == b[off + 1],
        a[off + 2] == b[off + 2],
        a[off + 3] == b[off + 3],
    ensures
        le32_or_zero(a, off) == le32_or_zero(b, off),
{
}

/// Words with the same four bytes are equal.
proof fn lemma_le32_eq(a: Seq<u8>, oa: int, b: Seq<u8>, ob: int)
    requires
        0 <= oa,
        oa + 4 <= a.len(),
        0 <= ob,
        ob + 4 <= b.len(),
        a[oa] == b[ob],
        a[oa + 1] == b[ob + 1],
        a[oa + 2] == b[ob + 2],
        a[oa + 3] == b[ob + 3],
    ensures
        le32_or_zero(a, oa) == le32_or_zero(b, ob),
{
}

/// The pixel `line_pixel` gives at column `c` from its neighbours.
proof fn lemma_line_pixel_step(lp: LineParams, prev: Seq<u8>, ft: Seq<u8>, pb: Seq<i8>, p0: u32, up0: u32, c: int, p: u32, up: u32)
    requires
        c >= first_col(lp),
        c > first_col(lp) ==> p == line_pixel(lp, prev, ft, pb, p0, up0, c - 1),
        c > first_col(lp) ==> up == le32_or_zero(prev, 4 * (c - 1)),
        c == first_col(lp) ==> p == p0 && up == up0,
    ensures
        line_pixel(lp, prev, ft, pb, p0, up0, c) == predict_word(
            ft[c / 8] % 2 == 0,
            p,
            le32_or_zero(prev, 4 * c),
            up,
            residual_word(pb, slot_of(c, lp.width as int, lp.skip as int, lp.oddskip as int, lp.fwd), ft[c / 8] as int / 2),
        ),
{
}

/// Reconstructs the columns `8 * start_block` up to `8 * block_limit` (at
/// most `width`) of one line, four bytes per pixel: each pixel is its
/// prediction from the pixel to its left, the one above and the one above
/// that, plus its residual, which is read from `pixelbuf` at the slot
/// `slot_of` gives and passed through the inverse of the block's filter.
#[verifier::rlimit(50)]
pub fn decode_line(
    prevline: &[u8],
    curline: &mut [u8],
    width: usize,
    start_block: usize,
    block_limit: usize,
    filter_types: &[u8],
    skipblockbytes: usize,
    pixelbuf: &[i8],
    initialp: u32,
    oddskip: isize,
    dir: usize,
    out_bpp: usize,
)
    requires
        out_bpp == 4,
        old(curline)@.len() == 4 * width,
        width <= u32::MAX,
        block_limit <= filter_types@.len(),
        block_limit <= width / 8 + 1,
        start_block <= block_limit,
        8 * start_block <= width,
        skipblockbytes <= 64,
        -8 <= oddskip <= 8,
    ensures
        ({
            let lp = LineParams { width, start_block, block_limit, skip: skipblockbytes, initialp, oddskip, fwd: dir % 2 == 1 };
            let p0 = if start_block > 0 { le32_or_zero(old(curline)@, 4 * (8 * start_block - 1)) } else { initialp };
            let up0 = if start_block > 0 { le32_or_zero(prevline@, 4 * (8 * start_block - 1)) } else { initialp };
            &&& final(curline)@.len() == old(curline)@.len()
            &&& forall|c: int| first_col(lp) <= c < end_col(lp) ==> #[trigger] le32_or_zero(final(curline)@, 4 * c)
                == line_pixel(lp, prevline@, filter_types@, pixelbuf@, p0, up0, c)
            &&& forall|k: int| 0 <= k < old(curline)@.len() && (k < 4 * first_col(lp) || k >= 4 * end_col(lp))
                ==> final(curline)@[k] == old(curline)@[k]
        }),
{
    let ghost lp = LineParams { width, start_block, block_limit, skip: skipblockbytes, initialp, oddskip, fwd: dir % 2 == 1 };
    let cl = curline.len();
    let fwd = (dir & 1) != 0;
    assert(((dir & 1) != 0) == (dir % 2 == 1)) by (bit_vector);
    assert(8 * (width / 8 + 1) <= width + 8 && width + 8 <= usize::MAX) by (nonlinear_arith)
        requires
            4 * width <= usize::MAX,
    ;
    let mut p: u32;
    let mut up: u32;
    if start_block > 0 {
        let px = start_block * W_BLOCK_SIZE;
        p = read_u32_le(curline, (px - 1) * out_bpp);
        up = read_u32_le(prevline, (px - 1) * out_bpp);
    } else {
        p = initialp;
        up = initialp;
    }
    let ghost p0 = p;
    let ghost up0 = up;
    let c_end = if block_limit * 8 < width { block_limit * 8 } else { width };
    let mut col = start_block * 8;
    proof {
        assert(lp.fwd == fwd);
    }
    while col < c_end
        invariant
            lp == (LineParams { width, start_block, block_limit, skip: skipblockbytes, initialp, oddskip, fwd }),
            out_bpp == 4,
            curline@.len() == 4 * width,
            old(curline)@.len() == 4 * width,
            4 * width <= usize::MAX,
            width <= u32::MAX,
            block_limit <= filter_types@.len(),
            block_limit <= width / 8 + 1,
            skipblockbytes <= 64,
            -8 <= oddskip <= 8,
            c_end == end_col(lp),
            first_col(lp) <= col,
            col <= c_end || col == first_col(lp),
            col > first_col(lp) ==> p == line_pixel(lp, prevline@, filter_types@, pixelbuf@, p0, up0, col - 1),
            col > first_col(lp) ==> up == le32_or_zero(prevline@, 4 * (col - 1)),
            col == first_col(lp) ==> p == p0 && up == up0,
            forall|c: int| first_col(lp) <= c < col ==> #[trigger] le32_or_zero(curline@, 4 * c)
                == line_pixel(lp, prevline@, filter_types@, pixelbuf@, p0, up0, c),
            forall|k: int| 0 <= k < curline@.len() && (k < 4 * first_col(lp) || k >= 4 * col)
                ==> curline@[k] == old(curline)@[k],
        decreases c_end - col,
    {
        let pixel = column_pixel(prevline, width, filter_types, skipblockbytes, pixelbuf, oddskip, fwd, col, p, up);
        let u = read_u32_le(prevline, col * out_bpp);
        let ghost c0 = curline@;
        write_u32_le(curline, col * out_bpp, pixel);
        proof {
            lemma_line_pixel_step(lp, prevline@, filter_types@, pixelbuf@, p0, up0, col as int, p, up);
            lemma_write_word(c0, curline@, 4 * col, pixel);
            assert forall|c: int| first_col(lp) <= c < col + 1 implies #[trigger] le32_or_zero(curline@, 4 * c)
                == line_pixel(lp, prevline@, filter_types@, pixelbuf@, p0, up0, c) by {
                if c < col {
                    lemma_le32_same(curline@, c0, 4 * c);
                }
            }
        }
        p = pixel;
        up = u;
        col = col + 1;
    }
}

/// Whether the first eleven bytes are the TLG6 magic.
pub(crate) fn has_tlg6_magic(data: &[u8]) -> (b: bool)
    requires
        data@.len() >= 11,
    ensures
        b == (data@.take(11) == tlg6_magic()),
{
    let ok = data[0] == 84 && data[1] == 76 && data[2] == 71 && data[3] == 54 && data[4] == 46
        && data[5] == 48 && data[6] == 0 && data[7] == 114 && data[8] == 97 && data[9] == 119
        && data[10] == 26;
    proof {
        if ok {
            assert(data@.take(11) =~= tlg6_magic());
        } else if data@.take(11) == tlg6_magic() {
            assert(data@.take(11)[0] == 84u8 && data@.take(11)[1] == 76u8 && data@.take(11)[2] == 71u8
                && data@.take(11)[3] == 54u8 && data@.take(11)[4] == 46u8 && data@.take(11)[5] == 48u8
                && data@.take(11)[6] == 0u8 && data@.take(11)[7] == 114u8 && data@.take(11)[8] == 97u8
                && data@.take(11)[9] == 119u8 && data@.take(11)[10] == 26u8);
        }
    }
    ok
}

/// The text that preloads the filter-table window (see `lzss_train`).
pub fn lzss_text() -> (t: Vec<u8>)
    ensures
        t@ == lzss_train(),
{
    let mut t: Vec<u8> = Vec::new();
    let mut i: u8 = 0;
    while i < 32
        invariant
            i <= 32,
            t@.len() == 128 * i,
            forall|k: int| 0 <= k < t@.len() ==> #[trigger] t@[k] == lzss_train()[k],
        decreases 32 - i,
    {
        let mut j: u8 = 0;
        while j < 16
            invariant
                i < 32,
                j <= 16,
                t@.len() == 128 * i + 8 * j,
                forall|k: int| 0 <= k < t@.len() ==> #[trigger] t@[k] == lzss_train()[k],
            decreases 16 - j,
        {
            let mut q: usize = 0;
            while q < 8
                invariant
                    i < 32,
                    j < 16,
                    q <= 8,
                    t@.len() == 128 * i + 8 * j + q,
                    forall|k: int| 0 <= k < t@.len() ==> #[trigger] t@[k] == lzss_train()[k],
                decreases 8 - q,
            {
                let ghost k = t@.len() as int;
                if q < 4 {
                    t.push(i);
                } else {
                    t.push(j);
                }
                proof {
                    assert(k % 8 == q && k / 128 == i && (k % 128) / 8 == j);
                }
                q = q + 1;
            }
            j = j + 1;
        }
        i = i + 1;
    }
    proof {
        assert(t@ =~= lzss_train());
    }
    t
}

/// The `count` residuals the channel coding at `q` (a four-byte bit length,
/// then its bytes) reads as.
pub open spec fn chunk_vals(data: Seq<u8>, q: int, count: nat) -> Seq<i8> {
    channel_read(padded(data.subrange(q + 4, q + 4 + chunk_len(le_u32_at(data, q)))), 0, count)
}

/// The residual slots of a block row of `count` pixels whose `colors`
/// channel codings start at `pos`: channel `c` of pixel `i` at `4 * i + c`,
/// 0 in the channels the image lacks.
#[verifier::opaque]
pub open spec fn row_slots(data: Seq<u8>, pos: int, count: nat, colors: int) -> Seq<i8> {
    Seq::new(
        4 * count,
        |k: int|
            if k % 4 < colors {
                chunk_vals(data, chan_walk(data, pos, (k % 4) as nat), count)[k / 4]
            } else {
                0i8
            },
    )
}

/// Reads the coding of one channel at `pos`: its bit length, then its
/// bytes, decoded into `count` residuals.  Returns them and the offset after
/// the coding.
fn read_channel(data: &[u8], pos: usize, count: usize) -> (r: Result<(Vec<i8>, usize), TlgError>)
    requires
        pos <= data@.len(),
    ensures
        pos + 4 > data@.len() ==> r == Err::<(Vec<i8>, usize), TlgError>(TlgError::UnexpectedEof),
        pos + 4 <= data@.len() ==> ({
            let bl = le_u32_at(data@, pos as int);
            if pos + 4 + chunk_len(bl) > data@.len() {
                r == Err::<(Vec<i8>, usize), TlgError>(TlgError::UnexpectedEof)
            } else if bl / 0x4000_0000 != 0 {
                r == Err::<(Vec<i8>, usize), TlgError>(TlgError::UnsupportedEntropyMethod)
            } else {
                r matches Ok((v, next)) && next == pos + 4 + chunk_len(bl) && v@.len() == count
            }
        }),
        r matches Ok((v, _)) ==> v@ == chunk_vals(data@, pos as int, count as nat),
        r matches Ok((v, _)) ==> forall|vals: Seq<i8>| #[trigger] chunk_holds(data@, pos as int, vals, count as nat) ==> v@
            == vals,
{
    if data.len() < 4 || pos > data.len() - 4 {
        return Err(TlgError::UnexpectedEof);
    }
    let bl = read_u32_at(data, pos);
    let method = bl >> 30;
    let bits = bl & 0x3fffffff;
    assert(method == bl / 0x4000_0000 && bits == bl % 0x4000_0000) by (bit_vector)
        requires
            method == bl >> 30,
            bits == bl & 0x3fffffff,
    ;
    let byte_length: usize = (bits / 8) as usize + if bits % 8 != 0 {
        1
    } else {
        0
    };
    let start = pos + 4;
    if data.len() - start < byte_length {
        return Err(TlgError::UnexpectedEof);
    }
    if method != 0 {
        return Err(TlgError::UnsupportedEntropyMethod);
    }
    let mut pool: Vec<u8> = Vec::new();
    pool.extend_from_slice(&data[start..start + byte_length]);
    let ghost chunk = data@.subrange(start as int, start + byte_length);
    proof {
        assert forall|i: int| 0 <= i < byte_length implies pool@[i] == chunk[i] by {
            assert(cloned(data@.subrange(start as int, start + byte_length)[i], pool@[i]));
        }
        assert(pool@ =~= chunk + Seq::new(0, |i: int| 0u8));
    }
    let mut k: usize = 0;
    while k < 5
        invariant
            k <= 5,
            pool@.len() == byte_length + k,
            byte_length <= 0x800_0000,
            chunk.len() == byte_length,
            pool@ == chunk + Seq::new(k as nat, |i: int| 0u8),
        decreases 5 - k,
    {
        pool.push(0);
        k = k + 1;
        assert(pool@ =~= chunk + Seq::new(k as nat, |i: int| 0u8));
    }
    proof {
        assert(pool@ =~= padded(data@.subrange(start as int, start + byte_length)));
        assert(byte_length == chunk_len(bl as int));
    }
    let mut br = TLG6BitReader::new(pool.as_slice());
    let vals = decode_golomb_channel(&mut br, count);
    Ok((vals, start + byte_length))
}


/// The header checks of a TLG6 stream, in the decoder's order: returns the
/// layout, width, height and the size of the filter table.
fn decode_header(data: &[u8]) -> (r: Result<(PixelLayout, u32, u32, usize), TlgError>)
    ensures
        match r {
            Ok((layout, w, h, fs)) => {
                &&& data@.len() >= 31 + fs
                &&& data@.take(11) == tlg6_magic()
                &&& layout_of_colors(data@[11]) == Some(layout)
                &&& w == le_u32_at(data@, 15)
                &&& h == le_u32_at(data@, 19)
                &&& fs == le_u32_at(data@, 27)
                &&& w * h * 4 <= usize::MAX
                &&& tlg6_decode_spec(data@) == match t6_scan(
                    data@,
                    31 + fs,
                    0,
                    ceil_div8(h as int),
                    data@[11] as int,
                    0,
                    lz_decode(data@.subrange(31, 31 + fs), lzss_train(), 0).0.len() as int,
                    x_blocks(w as int),
                ) {
                    Err(e) => Err(e),
                    Ok(_) => Ok(ImageInfo { width: w, height: h, pixel_layout: layout }),
                }
            },
            Err(e) => tlg6_decode_spec(data@) == Err::<ImageInfo, TlgError>(e),
        },
{
    if data.len() < 27 {
        return Err(TlgError::DataTooShort);
    }
    if !has_tlg6_magic(data) {
        return Err(TlgError::BadMagic);
    }
    let colors_byte = data[11];
    let layout = if colors_byte == 1 {
        PixelLayout::Gray
    } else if colors_byte == 3 {
        PixelLayout::Rgb
    } else if colors_byte == 4 {
        PixelLayout::Rgba
    } else {
        return Err(TlgError::UnsupportedColors);
    };
    if data.len() < 31 {
        return Err(TlgError::UnexpectedEof);
    }
    let w = read_u32_at(data, 15);
    let h = read_u32_at(data, 19);
    let fs = read_u32_at(data, 27) as usize;
    if data.len() - 31 < fs {
        return Err(TlgError::UnexpectedEof);
    }
    let w64 = w as u64;
    let h64 = h as u64;
    assert(w64 * h64 <= 0xffff_fffe_0000_0001) by (nonlinear_arith)
        requires
            w64 <= 0xffff_ffff,
            h64 <= 0xffff_ffff,
    ;
    let wh = (w64 as u128) * (h64 as u128);
    if wh * 4 > usize::MAX as u128 {
        return Err(TlgError::ImageTooLarge);
    }
    Ok((layout, w, h, fs))
}

/// A word's four bytes are its channels.
proof fn lemma_word_bytes(s: Seq<u8>, o: int, x: u32)
    requires
        0 <= o,
        o + 4 <= s.len(),
        le32_or_zero(s, o) == x,
    ensures
        s[o] == lane(x, 0),
        s[o + 1] == lane(x, 1),
        s[o + 2] == lane(x, 2),
        s[o + 3] == lane(x, 3),
{
    lemma_pack4(x, s[o] as u32, s[o + 1] as u32, s[o + 2] as u32, s[o + 3] as u32);
}

/// Four-byte pixels that read as the image's words give, converted to the
/// layout, the image.
proof fn lemma_bgra_image(out: Seq<u8>, px: Seq<u8>, img: Seq<u8>, w: int, h: int, layout: PixelLayout)
    requires
        w >= 0,
        h >= 0,
        out.len() == 4 * (w * h),
        px.len() == w * h * spec_colors(layout),
        img.len() >= w * h * spec_colors(layout),
        forall|i: int, j: int|
            0 <= i < w * h && 0 <= j < spec_colors(layout) ==> #[trigger] px[i * spec_colors(layout) + j] == out[4 * i
                + bgra_index(layout, j)],
        forall|rr: int, c: int|
            0 <= rr < h && 0 <= c < w ==> #[trigger] le32_or_zero(out, 4 * (w * rr + c)) == target_word(
                img,
                w,
                spec_colors(layout) as int,
                c,
                rr,
            ),
    ensures
        px == img.take(w * h * spec_colors(layout)),
{
    let cc = spec_colors(layout) as int;
    assert forall|m: int| 0 <= m < w * h * cc implies px[m] == img[m] by {
        lemma_bgra_at(out, px, img, w, h, layout, m);
    }
}

/// One byte of the image, as `lemma_bgra_image` gets it.
#[verifier::spinoff_prover]
proof fn lemma_bgra_at(out: Seq<u8>, px: Seq<u8>, img: Seq<u8>, w: int, h: int, layout: PixelLayout, m: int)
    requires
        w >= 0,
        h >= 0,
        0 <= m < w * h * spec_colors(layout),
        out.len() == 4 * (w * h),
        forall|i: int, j: int|
            0 <= i < w * h && 0 <= j < spec_colors(layout) ==> #[trigger] px[i * spec_colors(layout) + j] == out[4 * i
                + bgra_index(layout, j)],
        forall|rr: int, c: int|
            0 <= rr < h && 0 <= c < w ==> #[trigger] le32_or_zero(out, 4 * (w * rr + c)) == target_word(
                img,
                w,
                spec_colors(layout) as int,
                c,
                rr,
            ),
    ensures
        px[m] == img[m],
{
    let cc = spec_colors(layout) as int;
    let i = m / cc;
    let j = m % cc;
    assert(m == i * cc + j && 0 <= j < cc);
    assert(0 <= i < w * h) by (nonlinear_arith)
        requires
            m == i * cc + j,
            0 <= j < cc,
            0 <= m < w * h * cc,
            cc >= 1,
    ;
    assert(w > 0) by (nonlinear_arith)
        requires
            0 <= i < w * h,
            h >= 0,
            w >= 0,
    ;
    let rr = i / w;
    let c = i % w;
    assert(i == w * rr + c && 0 <= c < w && 0 <= rr < h) by (nonlinear_arith)
        requires
            rr == i / w,
            c == i % w,
            w > 0,
            0 <= i < w * h,
    ;
    assert(4 * i + 4 <= out.len()) by (nonlinear_arith)
        requires
            0 <= i < w * h,
            out.len() == 4 * (w * h),
    ;
    assert(le32_or_zero(out, 4 * (w * rr + c)) == target_word(img, w, cc, c, rr));
    lemma_word_bytes(out, 4 * i, target_word(img, w, cc, c, rr));
    lemma_target_lanes(img, w, cc, c, rr);
    let idx = bgra_index(layout, j);
    assert(0 <= idx < cc);
    assert(px[i * cc + j] == out[4 * i + idx]);
    assert(out[4 * i + idx] == target_lane(img, w, cc, c, rr, idx));
    assert(rr * w * cc + c * cc + j == m) by (nonlinear_arith)
        requires
            i == w * rr + c,
            m == i * cc + j,
    ;
    reveal(spec_pixel_channel);
    assert(channel_offset(c, rr, w, cc, idx) == rr * w * cc + c * cc + j);
}

/// Where the four-byte pixels keep byte `j` of a pixel in `layout`: blue,
/// green, red and alpha come in that order, a layout's bytes red first.
pub open spec fn bgra_index(layout: PixelLayout, j: int) -> int {
    match layout {
        PixelLayout::Gray => 0,
        PixelLayout::Rgb => 2 - j,
        PixelLayout::Rgba => if j < 3 {
            2 - j
        } else {
            3
        },
    }
}

/// The decoded image, converted from four bytes per pixel (blue, green,
/// red, alpha) to the layout's channels, red first.
fn from_bgra(out: &Vec<u8>, n: usize, layout: PixelLayout) -> (px: Vec<u8>)
    requires
        out@.len() == 4 * n,
    ensures
        px@.len() == n * spec_colors(layout),
        forall|i: int, j: int|
            0 <= i < n && 0 <= j < spec_colors(layout) ==> #[trigger] px@[i * spec_colors(layout) + j] == out@[4 * i
                + bgra_index(layout, j)],
{
    let colors = layout.colors();
    let total = out.len();
    let mut px: Vec<u8> = Vec::new();
    let mut i: usize = 0;
    while i < n
        invariant
            i <= n,
            out@.len() == 4 * n,
            total == 4 * n,
            px@.len() == colors * i,
            colors == spec_colors(layout),
            forall|i2: int, j: int|
                0 <= i2 < i && 0 <= j < colors ==> #[trigger] px@[i2 * colors + j] == out@[4 * i2 + bgra_index(layout, j)],
        decreases n - i,
    {
        let o = i * 4;
        let ghost p0 = px@;
        match layout {
            PixelLayout::Gray => {
                px.push(out[o]);
            },
            PixelLayout::Rgb => {
                px.push(out[o + 2]);
                px.push(out[o + 1]);
                px.push(out[o]);
            },
            PixelLayout::Rgba => {
                px.push(out[o + 2]);
                px.push(out[o + 1]);
                px.push(out[o]);
                px.push(out[o + 3]);
            },
        }
        proof {
            assert forall|i2: int, j: int| 0 <= i2 < i + 1 && 0 <= j < colors implies #[trigger] px@[i2 * colors + j]
                == out@[4 * i2 + bgra_index(layout, j)] by {
                if i2 < i {
                    assert(i2 * colors + j < colors * i) by (nonlinear_arith)
                        requires
                            i2 < i,
                            0 <= j < colors,
                    ;
                    assert(px@[i2 * colors + j] == p0[i2 * colors + j]);
                } else {
                    assert(i2 * colors + j == colors * i + j) by (nonlinear_arith)
                        requires
                            i2 == i,
                    ;
                }
            }
        }
        i = i + 1;
    }
    px
}

/// Reads the channel codings of one block row into slots of four residual
/// bytes per pixel: channel `c` of pixel `i` at `4 * i + c`, 0 in the
/// channels the image lacks.
#[verifier::spinoff_prover]
#[verifier::rlimit(30)]
fn read_row_channels(data: &[u8], pos: usize, pixel_count: usize, colors: usize) -> (r: Result<(Vec<i8>, usize), TlgError>)
    requires
        pos <= data@.len(),
        pixel_count * 4 <= usize::MAX,
        colors <= 4,
    ensures
        match r {
            Ok((pb, next)) => pb@.len() == pixel_count * 4 && next <= data@.len() && forall|row: int, rows: int, ftlen: int, xbc: int|
                #![trigger t6_scan(data@, pos as int, row, rows, colors as int, 0, ftlen, xbc)]
                row < rows ==> t6_scan(data@, pos as int, row, rows, colors as int, 0, ftlen, xbc) == t6_scan(
                    data@,
                    next as int,
                    row,
                    rows,
                    colors as int,
                    colors as int,
                    ftlen,
                    xbc,
                ),
            Err(e) => forall|row: int, rows: int, ftlen: int, xbc: int|
                #![trigger t6_scan(data@, pos as int, row, rows, colors as int, 0, ftlen, xbc)]
                row < rows ==> t6_scan(data@, pos as int, row, rows, colors as int, 0, ftlen, xbc) == Err::<(), TlgError>(e),
        },
        r matches Ok((pb, next)) ==> {
            &&& pb@ == row_slots(data@, pos as int, pixel_count as nat, colors as int)
            &&& next == chan_walk(data@, pos as int, colors as nat)
            &&& forall|c: int, vals: Seq<i8>|
                0 <= c < colors && #[trigger] chunk_holds(data@, chan_walk(data@, pos as int, c as nat), vals, pixel_count as nat)
                    ==> forall|i: int| 0 <= i < pixel_count ==> #[trigger] pb@[4 * i + c] == vals[i]
            &&& forall|i: int, c: int| 0 <= i < pixel_count && colors <= c < 4 ==> #[trigger] pb@[4 * i + c] == 0
        },
{
    let mut pixelbuf: Vec<i8> = vec![0i8; pixel_count * 4];
    let mut c: usize = 0;
    let mut comp_pos = pos;
    proof {
        assert forall|i: int, c2: int| 0 <= i < pixel_count && 0 <= c2 < 4 implies #[trigger] pixelbuf@[4 * i + c2] == 0 by {
            assert(cloned(0i8, pixelbuf@[4 * i + c2]));
        }
    }
    while c < colors
        invariant
            c <= colors,
            colors <= 4,
            pos <= comp_pos <= data@.len(),
            pixelbuf@.len() == pixel_count * 4,
            pixel_count * 4 <= usize::MAX,
            forall|row: int, rows: int, ftlen: int, xbc: int|
                #![trigger t6_scan(data@, pos as int, row, rows, colors as int, 0, ftlen, xbc)]
                row < rows ==> t6_scan(data@, pos as int, row, rows, colors as int, 0, ftlen, xbc) == t6_scan(
                    data@,
                    comp_pos as int,
                    row,
                    rows,
                    colors as int,
                    c as int,
                    ftlen,
                    xbc,
                ),
            comp_pos == chan_walk(data@, pos as int, c as nat),
            forall|i: int, c2: int| 0 <= i < pixel_count && 0 <= c2 < c ==> #[trigger] pixelbuf@[4 * i + c2] == chunk_vals(
                data@,
                chan_walk(data@, pos as int, c2 as nat),
                pixel_count as nat,
            )[i],
            forall|c2: int, vals: Seq<i8>|
                0 <= c2 < c && #[trigger] chunk_holds(data@, chan_walk(data@, pos as int, c2 as nat), vals, pixel_count as nat)
                    ==> forall|i: int| 0 <= i < pixel_count ==> #[trigger] pixelbuf@[4 * i + c2] == vals[i],
            forall|i: int, c2: int| 0 <= i < pixel_count && c <= c2 < 4 ==> #[trigger] pixelbuf@[4 * i + c2] == 0,
        decreases colors - c,
    {
        let rc = read_channel(data, comp_pos, pixel_count);
        match rc {
            Err(e) => {
                return Err(e);
            },
            Ok((vals, next)) => {
                let ghost pb0 = pixelbuf@;
                let mut i: usize = 0;
                while i < pixel_count
                    invariant
                        i <= pixel_count,
                        c < colors,
                        colors <= 4,
                        pixel_count * 4 <= usize::MAX,
                        vals@.len() == pixel_count,
                        pixelbuf@.len() == pixel_count * 4,
                        pb0.len() == pixel_count * 4,
                        forall|j: int| 0 <= j < i ==> #[trigger] pixelbuf@[4 * j + c] == vals@[j],
                        forall|k: int| 0 <= k < pixelbuf@.len() && (k % 4 != c || k / 4 >= i) ==> #[trigger] pixelbuf@[k] == pb0[k],
                    decreases pixel_count - i,
                {
                    pixelbuf.set(i * 4 + c, vals[i]);
                    i = i + 1;
                }
                proof {
                    assert forall|i2: int, c2: int| 0 <= i2 < pixel_count && 0 <= c2 < c + 1 implies #[trigger] pixelbuf@[4 * i2 + c2]
                        == chunk_vals(data@, chan_walk(data@, pos as int, c2 as nat), pixel_count as nat)[i2] by {
                        if c2 != c {
                            assert((4 * i2 + c2) % 4 == c2);
                            assert(pixelbuf@[4 * i2 + c2] == pb0[4 * i2 + c2]);
                        }
                    }
                    assert forall|c2: int, vs: Seq<i8>|
                        0 <= c2 < c + 1 && #[trigger] chunk_holds(data@, chan_walk(data@, pos as int, c2 as nat), vs, pixel_count as nat)
                            implies forall|i2: int| 0 <= i2 < pixel_count ==> #[trigger] pixelbuf@[4 * i2 + c2] == vs[i2] by {
                        if c2 == c {
                            assert(vals@ == vs);
                        } else {
                            assert forall|i2: int| 0 <= i2 < pixel_count implies #[trigger] pixelbuf@[4 * i2 + c2] == vs[i2] by {
                                assert((4 * i2 + c2) % 4 == c2);
                                assert(pixelbuf@[4 * i2 + c2] == pb0[4 * i2 + c2]);
                            }
                        }
                    }
                    assert forall|i2: int, c2: int| 0 <= i2 < pixel_count && c + 1 <= c2 < 4 implies #[trigger] pixelbuf@[4 * i2
                        + c2] == 0 by {
                        assert((4 * i2 + c2) % 4 == c2);
                        assert(pixelbuf@[4 * i2 + c2] == pb0[4 * i2 + c2]);
                    }
                }
                comp_pos = next;
            },
        }
        c = c + 1;
    }
    proof {
        let rs = row_slots(data@, pos as int, pixel_count as nat, colors as int);
        reveal(row_slots);
        assert forall|k: int| 0 <= k < pixelbuf@.len() implies pixelbuf@[k] == rs[k] by {
            let i = k / 4;
            let c2 = k % 4;
            assert(k == 4 * i + c2);
            assert(0 <= i < pixel_count);
        }
        assert(pixelbuf@ =~= rs);
    }
    Ok((pixelbuf, comp_pos))
}


/// The context in which the block row of lines `y..y + bh` decodes to the
/// image's lines: its residual slots hold what the coder stored, its filter
/// bytes are ones the coder makes, and the line above it reads as the
/// image's (or as the outside word above the first line).
pub open spec fn row_ctx(
    img: Seq<u8>,
    prev: Seq<u8>,
    ft: Seq<u8>,
    pb: Seq<i8>,
    width: int,
    colors: int,
    y: int,
    bh: int,
    initialp: u32,
) -> bool {
    &&& colors == 1 || colors == 3 || colors == 4
    &&& initialp == base_word(colors)
    &&& row_slots_hold(pb, ft, img, width, colors, y, bh)
    &&& forall|i: int| 0 <= i < x_blocks(width) ==> code_ok(#[trigger] ft[i] as int, colors)
    &&& forall|c: int| 0 <= c < width ==> #[trigger] le32_or_zero(prev, 4 * c) == nb_word(img, width, colors, c, y - 1)
}

/// Line `yy` of a block row, as the two line reconstructions leave it (the
/// whole blocks, then the last, narrower block), reads as the image's line.
proof fn lemma_line_done(
    img: Seq<u8>,
    prev: Seq<u8>,
    ft: Seq<u8>,
    pb: Seq<i8>,
    width: int,
    colors: int,
    y: int,
    bh: int,
    yy: int,
    initialp: u32,
    lp1: LineParams,
    lp2: LineParams,
    c0: Seq<u8>,
    c1: Seq<u8>,
    c2: Seq<u8>,
)
    requires
        colors == 1 || colors == 3 || colors == 4,
        initialp == base_word(colors),
        row_slots_hold(pb, ft, img, width, colors, y, bh),
        forall|i: int| 0 <= i < x_blocks(width) ==> code_ok(#[trigger] ft[i] as int, colors),
        x_blocks(width) <= ft.len(),
        forall|c: int| 0 <= c < width ==> #[trigger] le32_or_zero(prev, 4 * c) == nb_word(img, width, colors, c, yy - 1),
        y % 8 == 0,
        0 <= y <= yy < y + bh,
        bh <= 8,
        width == lp1.width,
        width == lp2.width,
        lp1.start_block == 0,
        lp1.block_limit == width / 8,
        lp2.start_block == width / 8,
        lp2.block_limit == x_blocks(width),
        lp1.skip == 8 * bh && lp2.skip == 8 * bh,
        lp1.oddskip == (y + bh - 1 - yy) - (yy - y) && lp2.oddskip == lp1.oddskip,
        lp1.fwd == (yy % 2 == 0) && lp2.fwd == lp1.fwd,
        lp1.initialp == initialp && lp2.initialp == initialp,
        c0.len() == 4 * width && c1.len() == 4 * width && c2.len() == 4 * width,
        width / 8 > 0 ==> 4 * (8 * (yy - y)) <= pb.len(),
        4 * ((width - 8 * (width / 8)) * (yy - y)) <= pb.len(),
        width / 8 > 0 ==> forall|c: int| 0 <= c < 8 * (width / 8) ==> #[trigger] le32_or_zero(c1, 4 * c) == line_pixel(
            lp1,
            prev,
            ft,
            pb.skip(4 * (8 * (yy - y))),
            initialp,
            initialp,
            c,
        ),
        width / 8 == 0 ==> c1 == c0,
        width / 8 != x_blocks(width) ==> forall|c: int| 8 * (width / 8) <= c < width ==> #[trigger] le32_or_zero(c2, 4 * c)
            == line_pixel(
            lp2,
            prev,
            ft,
            pb.skip(4 * ((width - 8 * (width / 8)) * (yy - y))),
            if width / 8 > 0 { le32_or_zero(c1, 4 * (8 * (width / 8) - 1)) } else { initialp },
            if width / 8 > 0 { le32_or_zero(prev, 4 * (8 * (width / 8) - 1)) } else { initialp },
            c,
        ),
        width / 8 != x_blocks(width) ==> forall|k: int| 0 <= k < 4 * (8 * (width / 8)) ==> c2[k] == c1[k],
        width / 8 == x_blocks(width) ==> c2 == c1,
    ensures
        forall|c: int| 0 <= c < width ==> #[trigger] le32_or_zero(c2, 4 * c) == target_word(img, width, colors, c, yy),
{
    let m = width / 8;
    assert forall|c: int| 0 <= c < 8 * m implies #[trigger] le32_or_zero(c1, 4 * c) == target_word(img, width, colors, c, yy) by {
        assert forall|c3: int| first_col(lp1) <= c3 < end_col(lp1) implies #[trigger] block_w(lp1.width as int, c3 / 8) == 8 by {
        }
        assert(4 * (8 * (yy - y)) <= pb.len());
        lemma_line_back(lp1, prev, ft, pb, 8 * (yy - y), 8, initialp, initialp, img, colors, yy, y, bh, c);
    }
    if m != x_blocks(width) {
        let fr = width - 8 * m;
        assert forall|c: int| 8 * m <= c < width implies #[trigger] le32_or_zero(c2, 4 * c) == target_word(img, width, colors, c, yy) by {
            assert forall|c3: int| first_col(lp2) <= c3 < end_col(lp2) implies #[trigger] block_w(lp2.width as int, c3 / 8) == fr by {
            }
            let p0 = if m > 0 { le32_or_zero(c1, 4 * (8 * m - 1)) } else { initialp };
            let up0 = if m > 0 { le32_or_zero(prev, 4 * (8 * m - 1)) } else { initialp };
            if m > 0 {
                assert(le32_or_zero(c1, 4 * (8 * m - 1)) == target_word(img, width, colors, 8 * m - 1, yy));
            }
            assert(0 <= fr * (yy - y)) by (nonlinear_arith)
                requires
                    fr >= 0,
                    yy >= y,
            ;
            lemma_line_back(lp2, prev, ft, pb, fr * (yy - y), fr, p0, up0, img, colors, yy, y, bh, c);
        }
        assert forall|c: int| 0 <= c < 8 * m implies #[trigger] le32_or_zero(c2, 4 * c) == target_word(img, width, colors, c, yy) by {
            assert(le32_or_zero(c1, 4 * c) == target_word(img, width, colors, c, yy));
            assert(c2[4 * c] == c1[4 * c] && c2[4 * c + 1] == c1[4 * c + 1] && c2[4 * c + 2] == c1[4 * c + 2] && c2[4 * c + 3] == c1[4 * c + 3]);
            lemma_le32_same(c2, c1, 4 * c);
        }
    }
}

/// The reconstruction parameters of line `yy` of the block row of lines
/// `y..y + bh`: for its whole blocks, or (`whole` false) for the last,
/// narrower block.
pub open spec fn row_line_params(width: int, y: int, bh: int, yy: int, initialp: u32, whole: bool) -> LineParams {
    LineParams {
        width: width as usize,
        start_block: (if whole { 0 } else { width / 8 }) as usize,
        block_limit: (if whole { width / 8 } else { x_blocks(width) }) as usize,
        skip: (8 * bh) as usize,
        initialp,
        oddskip: ((y + bh - 1 - yy) - (yy - y)) as isize,
        fwd: yy % 2 == 0,
    }
}

/// Pixel `c` of line `yy` of the block row of lines `y..y + bh`, below the
/// line `prev`: the whole blocks from the row's first pixel on, then the
/// last, narrower block from the pixel left of it.
pub open spec fn row_word(
    prev: Seq<u8>,
    ft: Seq<u8>,
    pb: Seq<i8>,
    width: int,
    y: int,
    bh: int,
    yy: int,
    initialp: u32,
    c: int,
) -> u32 {
    let m = width / 8;
    let lp1 = row_line_params(width, y, bh, yy, initialp, true);
    let lp2 = row_line_params(width, y, bh, yy, initialp, false);
    let pb1 = pb.skip(4 * (8 * (yy - y)));
    if c < 8 * m {
        line_pixel(lp1, prev, ft, pb1, initialp, initialp, c)
    } else {
        let p0 = if m > 0 { line_pixel(lp1, prev, ft, pb1, initialp, initialp, 8 * m - 1) } else { initialp };
        let up0 = if m > 0 { le32_or_zero(prev, 4 * (8 * m - 1)) } else { initialp };
        line_pixel(lp2, prev, ft, pb.skip(4 * ((width - 8 * m) * (yy - y))), p0, up0, c)
    }
}

/// Line `y + r` of the block row of lines `y..y + bh` below the line `prev`,
/// four bytes per pixel, each line below the one before it.
#[verifier::opaque]
pub open spec fn row_line(
    prev: Seq<u8>,
    ft: Seq<u8>,
    pb: Seq<i8>,
    width: int,
    y: int,
    bh: int,
    initialp: u32,
    r: nat,
) -> Seq<u8>
    decreases r,
{
    let above = if r == 0 {
        prev
    } else {
        row_line(prev, ft, pb, width, y, bh, initialp, (r - 1) as nat)
    };
    Seq::new((4 * width) as nat, |k: int| lane(row_word(above, ft, pb, width, y, bh, y + r, initialp, k / 4), (k % 4) as u32) as u8)
}

/// The lines of the block row one after the other.
#[verifier::opaque]
pub open spec fn row_lines(prev: Seq<u8>, ft: Seq<u8>, pb: Seq<i8>, width: int, y: int, bh: int, initialp: u32) -> Seq<u8> {
    Seq::new(
        (4 * width * bh) as nat,
        |k: int| row_line(prev, ft, pb, width, y, bh, initialp, (k / (4 * width)) as nat)[k % (4 * width)],
    )
}

/// Line `yy` as the two line reconstructions leave it reads, word by word,
/// as `row_word` says.
proof fn lemma_line_words(
    prev: Seq<u8>,
    ft: Seq<u8>,
    pb: Seq<i8>,
    width: int,
    y: int,
    bh: int,
    yy: int,
    initialp: u32,
    lp1: LineParams,
    lp2: LineParams,
    c0: Seq<u8>,
    c1: Seq<u8>,
    c2: Seq<u8>,
)
    requires
        0 <= y <= yy,
        lp1 == row_line_params(width, y, bh, yy, initialp, true),
        lp2 == row_line_params(width, y, bh, yy, initialp, false),
        c0.len() == 4 * width && c1.len() == 4 * width && c2.len() == 4 * width,
        width / 8 > 0 ==> forall|c: int| first_col(lp1) <= c < end_col(lp1) ==> #[trigger] le32_or_zero(c1, 4 * c) == line_pixel(
            lp1,
            prev,
            ft,
            pb.skip(4 * (8 * (yy - y))),
            initialp,
            initialp,
            c,
        ),
        width / 8 == 0 ==> c1 == c0,
        width / 8 != x_blocks(width) ==> forall|c: int| first_col(lp2) <= c < end_col(lp2) ==> #[trigger] le32_or_zero(c2, 4 * c)
            == line_pixel(
            lp2,
            prev,
            ft,
            pb.skip(4 * ((width - 8 * (width / 8)) * (yy - y))),
            if width / 8 > 0 { le32_or_zero(c1, 4 * (8 * (width / 8) - 1)) } else { initialp },
            if width / 8 > 0 { le32_or_zero(prev, 4 * (8 * (width / 8) - 1)) } else { initialp },
            c,
        ),
        width / 8 != x_blocks(width) ==> forall|k: int| 0 <= k < 4 * (8 * (width / 8)) ==> c2[k] == c1[k],
        width / 8 == x_blocks(width) ==> c2 == c1,
        0 <= width <= u32::MAX,
        x_blocks(width) == (if width == 0 { 1 } else { width / 8 + if width % 8 != 0 { 1int } else { 0 } }),
    ensures
        forall|c: int| 0 <= c < width ==> #[trigger] le32_or_zero(c2, 4 * c) == row_word(prev, ft, pb, width, y, bh, yy, initialp, c),
{
    let m = width / 8;
    assert forall|c: int| 0 <= c < width implies #[trigger] le32_or_zero(c2, 4 * c) == row_word(prev, ft, pb, width, y, bh, yy, initialp, c) by {
        if c < 8 * m {
            assert(end_col(lp1) == 8 * m);
            assert(le32_or_zero(c1, 4 * c) == row_word(prev, ft, pb, width, y, bh, yy, initialp, c));
            if m != x_blocks(width) {
                lemma_le32_same(c2, c1, 4 * c);
            }
        } else {
            assert(m != x_blocks(width));
            assert(first_col(lp2) == 8 * m && end_col(lp2) == width);
            if m > 0 {
                assert(le32_or_zero(c1, 4 * (8 * m - 1)) == line_pixel(lp1, prev, ft, pb.skip(4 * (8 * (yy - y))), initialp, initialp, 8 * m - 1));
            }
        }
    }
}

/// A line whose words are those of line `y + r` of the block row is that
/// line.
proof fn lemma_line_bytes(
    line: Seq<u8>,
    above: Seq<u8>,
    prev: Seq<u8>,
    ft: Seq<u8>,
    pb: Seq<i8>,
    width: int,
    y: int,
    bh: int,
    initialp: u32,
    r: nat,
)
    requires
        width >= 0,
        line.len() == 4 * width,
        above == (if r == 0 { prev } else { row_line(prev, ft, pb, width, y, bh, initialp, (r - 1) as nat) }),
        forall|c: int| 0 <= c < width ==> #[trigger] le32_or_zero(line, 4 * c) == row_word(above, ft, pb, width, y, bh, y + r, initialp, c),
    ensures
        line == row_line(prev, ft, pb, width, y, bh, initialp, r),
{
    reveal(row_line);
    let target = row_line(prev, ft, pb, width, y, bh, initialp, r);
    assert forall|k: int| 0 <= k < line.len() implies line[k] == target[k] by {
        let c = k / 4;
        let x = row_word(above, ft, pb, width, y, bh, y + r, initialp, c);
        assert(0 <= c < width);
        assert(le32_or_zero(line, 4 * c) == x);
        lemma_word_bytes(line, 4 * c, x);
        assert(k == 4 * c + k % 4);
        assert(lane(x, 0) < 256 && lane(x, 1) < 256 && lane(x, 2) < 256 && lane(x, 3) < 256) by (bit_vector);
    }
    assert(line =~= target);
}

/// Each byte of `s` is the byte of the block row's lines at its offset.
#[verifier::opaque]
pub open spec fn lines_so_far(s: Seq<u8>, prev: Seq<u8>, ft: Seq<u8>, pb: Seq<i8>, width: int, y: int, bh: int, initialp: u32) -> bool {
    forall|k: int| 0 <= k < s.len() ==> #[trigger] s[k] == row_line(prev, ft, pb, width, y, bh, initialp, (k / (4 * width)) as nat)[k % (4 * width)]
}

/// Appending line `y + r` to the first `r` lines of the block row gives the
/// first `r + 1`.
proof fn lemma_lines_append(
    o0: Seq<u8>,
    line: Seq<u8>,
    prev: Seq<u8>,
    ft: Seq<u8>,
    pb: Seq<i8>,
    width: int,
    y: int,
    bh: int,
    initialp: u32,
    r: nat,
)
    requires
        width >= 0,
        o0.len() == 4 * width * r,
        line.len() == 4 * width,
        line == row_line(prev, ft, pb, width, y, bh, initialp, r),
        lines_so_far(o0, prev, ft, pb, width, y, bh, initialp),
    ensures
        lines_so_far(o0 + line, prev, ft, pb, width, y, bh, initialp),
{
    reveal(lines_so_far);
    let n = o0 + line;
    assert forall|k: int| 0 <= k < n.len() implies #[trigger] n[k] == row_line(prev, ft, pb, width, y, bh, initialp, (k / (4 * width)) as nat)[k % (4 * width)] by {
        if k < o0.len() {
            assert(n[k] == o0[k]);
        } else {
            let j = k - o0.len();
            assert(0 <= j < 4 * width);
            assert(k == (r as int) * (4 * width) + j) by (nonlinear_arith)
                requires
                    k == o0.len() + j,
                    o0.len() == 4 * width * r,
            ;
            vstd::arithmetic::div_mod::lemma_fundamental_div_mod_converse(k, 4 * width, r as int, j);
            assert(n[k] == line[j]);
        }
    }
}

/// Reconstructs the `bheight` lines of the block row starting at line `y`
/// (a multiple of 8) from the line above it `prev`, the row's filter codes
/// `ft_row` and its residual slots.  Returns the lines, four bytes per
/// pixel, and the last of them.  In the context `row_ctx` of an image, the
/// lines are the image's lines `y..y + bheight`.
#[verifier::rlimit(50)]
fn decode_row_lines(
    prev: Vec<u8>,
    width: usize,
    y: usize,
    bheight: usize,
    ft_row: &[u8],
    pixelbuf: &Vec<i8>,
    initialp: u32,
) -> (r: (Vec<u8>, Vec<u8>))
    requires
        prev@.len() == 4 * width,
        width <= u32::MAX,
        1 <= bheight <= 8,
        y % 8 == 0,
        y + bheight <= usize::MAX,
        4 * width * bheight <= usize::MAX,
        x_blocks(width as int) <= ft_row@.len(),
        pixelbuf@.len() == bheight * width * 4,
    ensures
        r.0@.len() == 4 * width * bheight,
        r.1@.len() == 4 * width,
        r.0@ == row_lines(prev@, ft_row@, pixelbuf@, width as int, y as int, bheight as int, initialp),
        r.1@ == row_line(prev@, ft_row@, pixelbuf@, width as int, y as int, bheight as int, initialp, (bheight - 1) as nat),
        forall|img: Seq<u8>, colors: int|
            #[trigger] row_ctx(img, prev@, ft_row@, pixelbuf@, width as int, colors, y as int, bheight as int, initialp) ==> {
                &&& forall|rr: int, c: int| 0 <= rr < bheight && 0 <= c < width ==> #[trigger] le32_or_zero(r.0@, 4 * (width * rr + c))
                    == target_word(img, width as int, colors, c, y + rr)
                &&& forall|c: int| 0 <= c < width ==> #[trigger] le32_or_zero(r.1@, 4 * c) == nb_word(
                    img,
                    width as int,
                    colors,
                    c,
                    y + bheight - 1,
                )
            },
{
    let xbc: usize = if width == 0 {
        1
    } else {
        width / 8 + if width % 8 != 0 {
            1
        } else {
            0
        }
    };
    let main_count = width / 8;
    let fraction = width - main_count * 8;
    assert(width * 4 <= 4 * width * bheight) by (nonlinear_arith)
        requires
            bheight >= 1,
    ;
    let out_row_bytes = width * 4;
    let skip = bheight * 8;
    let ylim = y + bheight;
    let ghost prev0 = prev@;
    let mut prevline = prev;
    let mut out: Vec<u8> = Vec::new();
    proof {
        reveal(lines_so_far);
    }
    let mut yy = y;
    while yy < ylim
        invariant
            width <= u32::MAX,
            out_row_bytes == 4 * width,
            main_count == width / 8,
            fraction == width - main_count * 8,
            xbc == x_blocks(width as int),
            xbc <= ft_row@.len(),
            y % 8 == 0,
            y <= yy <= ylim,
            ylim == y + bheight,
            1 <= bheight <= 8,
            skip == bheight * 8,
            pixelbuf@.len() == bheight * width * 4,
            prevline@.len() == 4 * width,
            out@.len() == 4 * width * (yy - y),
            4 * width * bheight <= usize::MAX,
            prev0.len() == 4 * width,
            prevline@ == (if yy == y {
                prev0
            } else {
                row_line(prev0, ft_row@, pixelbuf@, width as int, y as int, bheight as int, initialp, (yy - 1 - y) as nat)
            }),
            lines_so_far(out@, prev0, ft_row@, pixelbuf@, width as int, y as int, bheight as int, initialp),
            forall|img: Seq<u8>, colors: int|
                #[trigger] row_ctx(img, prev0, ft_row@, pixelbuf@, width as int, colors, y as int, bheight as int, initialp) ==> {
                    &&& forall|c: int| 0 <= c < width ==> #[trigger] le32_or_zero(prevline@, 4 * c) == nb_word(
                        img,
                        width as int,
                        colors,
                        c,
                        yy - 1,
                    )
                    &&& forall|rr: int, c: int| 0 <= rr < yy - y && 0 <= c < width ==> #[trigger] le32_or_zero(
                        out@,
                        4 * (width * rr + c),
                    ) == target_word(img, width as int, colors, c, y + rr)
                },
        decreases ylim - yy,
    {
        let mut curline: Vec<u8> = vec![0u8; out_row_bytes];
        let ghost c0 = curline@;
        let dir = (yy & 1) ^ 1;
        assert((dir % 2 == 1) == (yy % 2 == 0)) by (bit_vector)
            requires
                dir == (yy & 1) ^ 1,
        ;
        let oddskip: isize = (ylim - yy - 1) as isize - (yy - y) as isize;
        let ghost lp1 = LineParams {
            width,
            start_block: 0,
            block_limit: main_count,
            skip,
            initialp,
            oddskip,
            fwd: dir % 2 == 1,
        };
        let ghost lp2 = LineParams {
            width,
            start_block: main_count,
            block_limit: xbc,
            skip,
            initialp,
            oddskip,
            fwd: dir % 2 == 1,
        };
        let ghost s1 = 8 * (yy - y);
        let ghost s2 = fraction * (yy - y);
        if main_count > 0 {
            let w_first = if width < 8 {
                width
            } else {
                8
            };
            assert(w_first * (yy - y) <= w_first * (yy - y) * 4 <= bheight * width * 4 && bheight * width * 4 == 4 * width * bheight) by (nonlinear_arith)
                requires
                    w_first <= width,
                    y <= yy,
                    yy - y < bheight,
            ;
            let start = w_first * (yy - y);
            assert(pixelbuf@.subrange(start * 4, pixelbuf@.len() as int) =~= pixelbuf@.skip(4 * s1));
            decode_line(
                prevline.as_slice(),
                curline.as_mut_slice(),
                width,
                0,
                main_count,
                ft_row,
                skip,
                &pixelbuf[start * 4..pixelbuf.len()],
                initialp,
                oddskip,
                dir,
                4,
            );
        }
        let ghost c1 = curline@;
        if main_count != xbc {
            let ww = if fraction > 8 {
                8
            } else {
                fraction
            };
            assert(ww * (yy - y) <= ww * (yy - y) * 4 <= bheight * width * 4 && bheight * width * 4 == 4 * width * bheight) by (nonlinear_arith)
                requires
                    ww <= width,
                    y <= yy,
                    yy - y < bheight,
            ;
            let start = ww * (yy - y);
            assert(pixelbuf@.subrange(start * 4, pixelbuf@.len() as int) =~= pixelbuf@.skip(4 * s2));
            decode_line(
                prevline.as_slice(),
                curline.as_mut_slice(),
                width,
                main_count,
                xbc,
                ft_row,
                skip,
                &pixelbuf[start * 4..pixelbuf.len()],
                initialp,
                oddskip,
                dir,
                4,
            );
        }
        let ghost c2 = curline@;
        assert(4 * width * (yy - y) + 4 * width <= 4 * width * bheight && 4 * width * (yy - y) + 4 * width == 4 * width
            * (yy + 1 - y)) by (nonlinear_arith)
            requires
                yy - y < bheight,
        ;
        assert((main_count > 0 ==> 4 * s1 <= pixelbuf@.len()) && 4 * s2 <= pixelbuf@.len()) by (nonlinear_arith)
            requires
                s1 == 8 * (yy - y),
                s2 == fraction * (yy - y),
                fraction <= width,
                0 <= yy - y < bheight,
                pixelbuf@.len() == bheight * width * 4,
                main_count > 0 ==> width >= 8,
        ;
        let ghost o0 = out@;
        out.extend_from_slice(curline.as_slice());
        proof {
            lemma_line_words(prevline@, ft_row@, pixelbuf@, width as int, y as int, bheight as int, yy as int, initialp, lp1, lp2, c0, c1, c2);
            lemma_line_bytes(c2, prevline@, prev0, ft_row@, pixelbuf@, width as int, y as int, bheight as int, initialp, (yy - y) as nat);
            lemma_lines_append(o0, c2, prev0, ft_row@, pixelbuf@, width as int, y as int, bheight as int, initialp, (yy - y) as nat);
            assert(out@ =~= o0 + c2);
        }
        proof {
            assert forall|img: Seq<u8>, colors: int|
                #[trigger] row_ctx(img, prev0, ft_row@, pixelbuf@, width as int, colors, y as int, bheight as int, initialp) implies {
                    &&& forall|c: int| 0 <= c < width ==> #[trigger] le32_or_zero(curline@, 4 * c) == nb_word(
                        img,
                        width as int,
                        colors,
                        c,
                        yy as int,
                    )
                    &&& forall|rr: int, c: int| 0 <= rr < yy + 1 - y && 0 <= c < width ==> #[trigger] le32_or_zero(
                        out@,
                        4 * (width * rr + c),
                    ) == target_word(img, width as int, colors, c, y + rr)
                } by {
                lemma_line_done(img, prevline@, ft_row@, pixelbuf@, width as int, colors, y as int, bheight as int, yy as int,
                    initialp, lp1, lp2, c0, c1, c2);
                assert forall|rr: int, c: int| 0 <= rr < yy + 1 - y && 0 <= c < width implies #[trigger] le32_or_zero(
                    out@,
                    4 * (width * rr + c),
                ) == target_word(img, width as int, colors, c, y + rr) by {
                    let off = 4 * (width * rr + c);
                    assert(off + 4 <= out@.len() && 0 <= off) by (nonlinear_arith)
                        requires
                            0 <= rr < yy + 1 - y,
                            0 <= c < width,
                            off == 4 * (width * rr + c),
                            out@.len() == 4 * width * (yy + 1 - y),
                    ;
                    if rr < yy - y {
                        assert(off + 4 <= o0.len()) by (nonlinear_arith)
                            requires
                                0 <= rr < yy - y,
                                0 <= c < width,
                                off == 4 * (width * rr + c),
                                o0.len() == 4 * width * (yy - y),
                        ;
                        assert(out@[off] == o0[off] && out@[off + 1] == o0[off + 1] && out@[off + 2] == o0[off + 2] && out@[off + 3] == o0[off + 3]);
                        lemma_le32_eq(out@, off, o0, off);
                    } else {
                        assert(off == o0.len() + 4 * c) by (nonlinear_arith)
                            requires
                                rr == yy - y,
                                off == 4 * (width * rr + c),
                                o0.len() == 4 * width * (yy - y),
                        ;
                        assert(out@[off] == curline@[4 * c] && out@[off + 1] == curline@[4 * c + 1] && out@[off + 2] == curline@[4 * c + 2] && out@[off + 3] == curline@[4 * c + 3]);
                        lemma_le32_eq(out@, off, curline@, 4 * c);
                        assert(le32_or_zero(curline@, 4 * c) == target_word(img, width as int, colors, c, yy as int));
                    }
                }
            }
        }
        prevline = curline;
        yy = yy + 1;
    }
    proof {
        let rl = row_lines(prev0, ft_row@, pixelbuf@, width as int, y as int, bheight as int, initialp);
        reveal(lines_so_far);
        reveal(row_lines);
        assert(out@.len() == rl.len());
        assert(out@ =~= rl);
    }
    (out, prevline)
}

/// The block row `row` of the image `img` decodes from the channel codings
/// at `comp_pos`, below the line `prev`: the codings hold the row's
/// residuals, the filter bytes `ft` are ones the coder makes, and `prev`
/// reads as the image's line above the row (or as the outside word).
pub open spec fn row_ready(
    img: Seq<u8>,
    data: Seq<u8>,
    comp_pos: int,
    ft: Seq<u8>,
    prev: Seq<u8>,
    row: int,
    w: int,
    h: int,
    colors: int,
    initialp: u32,
) -> bool {
    &&& colors == 1 || colors == 3 || colors == 4
    &&& initialp == base_word(colors)
    &&& forall|k: int| 0 <= k < ft.len() ==> code_ok(#[trigger] ft[k] as int, colors)
    &&& forall|c: int| 0 <= c < colors ==> #[trigger] row_chunk_ok(data, chan_walk(data, comp_pos, c as nat), img, w, h, colors, ft, row, c)
    &&& forall|c: int| 0 <= c < w ==> #[trigger] le32_or_zero(prev, 4 * c) == nb_word(img, w, colors, c, 8 * row - 1)
}

/// The lines and the last line of block row `row` of a `w` by `h` image,
/// from its channel codings at `comp_pos`, its filter codes in `ft` and
/// the line above it `prev`.
#[verifier::opaque]
pub open spec fn row_decoded(
    lines: Seq<u8>,
    last: Seq<u8>,
    data: Seq<u8>,
    ft: Seq<u8>,
    comp_pos: int,
    prev: Seq<u8>,
    row: int,
    w: int,
    h: int,
    colors: int,
    initialp: u32,
) -> bool {
    let bh = row_height(h, row);
    let pb = row_slots(data, comp_pos, (bh * w) as nat, colors);
    let fr = ft.skip(row * x_blocks(w));
    &&& lines == row_lines(prev, fr, pb, w, 8 * row, bh, initialp)
    &&& last == row_line(prev, fr, pb, w, 8 * row, bh, initialp, (bh - 1) as nat)
}

/// Decodes the block row `row` (lines `y..y + 8`, cut at the image's
/// height) whose channel codings start at `comp_pos`, below the line
/// `prevline`.  Returns its lines, its last line and the offset after its
/// codings; fails as the stream walk `t6_scan` does on this row.  Where
/// the codings hold an image's row (see `row_ready`), the lines are the
/// image's.
#[verifier::rlimit(40)]
fn decode_block_row(
    data: &[u8],
    comp_pos: usize,
    row: usize,
    y: usize,
    width: usize,
    height: usize,
    colors: usize,
    xbc: usize,
    ft: &Vec<u8>,
    prevline: Vec<u8>,
    initialp: u32,
) -> (r: Result<(Vec<u8>, Vec<u8>, usize), TlgError>)
    requires
        comp_pos <= data@.len(),
        y == 8 * row,
        y < height,
        width <= u32::MAX,
        height <= u32::MAX,
        width * height * 4 <= usize::MAX,
        colors <= 4,
        xbc == x_blocks(width as int),
        prevline@.len() == 4 * width,
    ensures
        match r {
            Ok((lines, last, next)) => {
                &&& lines@.len() == 4 * width * (if height - y < 8 { height - y } else { 8 })
                &&& last@.len() == 4 * width
                &&& row_decoded(lines@, last@, data@, ft@, comp_pos as int, prevline@, row as int, width as int, height as int, colors as int, initialp)
                &&& next <= data@.len()
                &&& forall|rows: int|
                    #![trigger t6_scan(data@, comp_pos as int, row as int, rows, colors as int, 0, ft@.len() as int, xbc as int)]
                    row < rows ==> t6_scan(data@, comp_pos as int, row as int, rows, colors as int, 0, ft@.len() as int, xbc as int)
                        == t6_scan(data@, next as int, row + 1, rows, colors as int, 0, ft@.len() as int, xbc as int)
                &&& next == chan_walk(data@, comp_pos as int, colors as nat)
                &&& forall|img: Seq<u8>|
                    #[trigger] row_ready(img, data@, comp_pos as int, ft@, prevline@, row as int, width as int, height as int, colors as int, initialp)
                        ==> {
                        &&& forall|rr: int, c: int|
                            0 <= rr < row_height(height as int, row as int) && 0 <= c < width ==> #[trigger] le32_or_zero(
                                lines@,
                                4 * (width * rr + c),
                            ) == target_word(img, width as int, colors as int, c, y + rr)
                        &&& forall|c: int| 0 <= c < width ==> #[trigger] le32_or_zero(last@, 4 * c) == nb_word(
                            img,
                            width as int,
                            colors as int,
                            c,
                            y + row_height(height as int, row as int) - 1,
                        )
                    }
            },
            Err(e) => forall|rows: int|
                #![trigger t6_scan(data@, comp_pos as int, row as int, rows, colors as int, 0, ft@.len() as int, xbc as int)]
                row < rows ==> t6_scan(data@, comp_pos as int, row as int, rows, colors as int, 0, ft@.len() as int, xbc as int)
                    == Err::<(), TlgError>(e),
        },
{
    let bheight = if height - y < 8 {
        height - y
    } else {
        8
    };
    assert(bheight * width * 4 <= width * height * 4) by (nonlinear_arith)
        requires
            bheight <= height,
    ;
    assert(4 * width * bheight == bheight * width * 4) by (nonlinear_arith);
    let pixel_count = bheight * width;
    let (pixelbuf, next) = match read_row_channels(data, comp_pos, pixel_count, colors) {
        Ok(rc) => rc,
        Err(e) => {
            return Err(e);
        },
    };
    assert(xbc <= 0x2000_0001 && row < 0x2000_0000);
    assert((row + 1) * xbc <= 0x2000_0000 * 0x2000_0001) by (nonlinear_arith)
        requires
            xbc <= 0x2000_0001,
            row < 0x2000_0000,
    ;
    let need: u128 = (row as u128 + 1) * (xbc as u128);
    if need > ft.len() as u128 {
        return Err(TlgError::FilterTableTooShort);
    }
    assert(row * xbc + xbc == (row + 1) * xbc) by (nonlinear_arith);
    let ft_row = &ft[row * xbc..ft.len()];
    assert(ft_row@ =~= ft@.skip(row * xbc));
    assert(row_height(height as int, row as int) == bheight);
    let ghost prev0 = prevline@;
    let (lines, last) = decode_row_lines(prevline, width, y, bheight, ft_row, &pixelbuf, initialp);
    proof {
        reveal(row_decoded);
    }
    proof {
        assert forall|img: Seq<u8>|
            #[trigger] row_ready(img, data@, comp_pos as int, ft@, prev0, row as int, width as int, height as int, colors as int, initialp)
                implies super::decode::row_ctx(img, prev0, ft_row@, pixelbuf@, width as int, colors as int, y as int, bheight as int, initialp) by {
            let w = width as int;
            assert(row_height(height as int, row as int) == bheight);
            assert forall|x: int, yy: int| 0 <= x < w && y <= yy < y + bheight implies #[trigger] slot_holds(
                pixelbuf@,
                enc_pos(x, yy, y as int, bheight as int, w),
                ft_row@[x / 8] as int,
                img,
                w,
                colors as int,
                x,
                yy,
            ) by {
                let k = enc_pos(x, yy, y as int, bheight as int, w);
                lemma_enc_pos_range(x, yy, y as int, bheight as int, w);
                assert(k < pixel_count);
                assert(0 <= x / 8 < xbc);
                assert(ft_row@[x / 8] == ft@[row * xbc + x / 8]);
                assert forall|ch: int| 0 <= ch < 4 implies #[trigger] pixelbuf@[4 * k + ch] == (if ch < colors {
                    stored_res(ft_row@[x / 8] as int, img, w, colors as int, x, yy, ch)
                } else {
                    0i8
                }) by {
                    if ch < colors {
                        assert(row_chunk_ok(data@, chan_walk(data@, comp_pos as int, ch as nat), img, w, height as int, colors as int, ft@, row as int, ch));
                        let vals = choose|vals: Seq<i8>|
                            #![trigger row_vals_ok(vals, img, w, height as int, colors as int, ft@, row as int, ch)]
                            chunk_holds(data@, chan_walk(data@, comp_pos as int, ch as nat), vals, (row_height(height as int, row as int) * w) as nat)
                                && row_vals_ok(vals, img, w, height as int, colors as int, ft@, row as int, ch);
                        assert(chunk_holds(data@, chan_walk(data@, comp_pos as int, ch as nat), vals, pixel_count as nat));
                        assert(pixelbuf@[4 * k + ch] == vals[k]);
                        assert(vals[enc_pos(x, yy, 8 * row, bheight as int, w)] == stored_res(
                            ft@[row * x_blocks(w) + x / 8] as int, img, w, colors as int, x, yy, ch));
                    }
                }
            }
            assert forall|i: int| 0 <= i < x_blocks(width as int) implies code_ok(#[trigger] ft_row@[i] as int, colors as int) by {
                assert(ft_row@[i] == ft@[row * xbc + i]);
            }
        }
    }
    Ok((lines, last, next))
}

/// The line above the first: the outside word (opaque black where the
/// image has three channels, 0 otherwise) in each pixel.
pub open spec fn first_prev(width: int, colors: int) -> Seq<u8> {
    Seq::new((4 * width) as nat, |k: int| if k % 4 == 3 && colors == 3 { 0xffu8 } else { 0u8 })
}

/// The lines of block rows `row..rows` of a `w` by `h` image, four bytes
/// per pixel: each row from its channel codings at `comp_pos`, its filter
/// codes in `ft` and the line above it, `prev` for the first.
#[verifier::opaque]
pub open spec fn rows_from(
    data: Seq<u8>,
    ft: Seq<u8>,
    comp_pos: int,
    prev: Seq<u8>,
    row: int,
    rows: int,
    w: int,
    h: int,
    colors: int,
    initialp: u32,
) -> Seq<u8>
    decreases rows - row,
{
    if row >= rows {
        Seq::empty()
    } else {
        let bh = row_height(h, row);
        let pb = row_slots(data, comp_pos, (bh * w) as nat, colors);
        let fr = ft.skip(row * x_blocks(w));
        let last = row_line(prev, fr, pb, w, 8 * row, bh, initialp, (bh - 1) as nat);
        row_lines(prev, fr, pb, w, 8 * row, bh, initialp) + rows_from(
            data,
            ft,
            chan_walk(data, comp_pos, colors as nat),
            last,
            row + 1,
            rows,
            w,
            h,
            colors,
            initialp,
        )
    }
}

/// The line the decoder starts from is the line above the first.
proof fn lemma_first_prev(zero: Seq<u8>, width: int, colors: int)
    requires
        width >= 0,
        zero.len() == 4 * width,
        forall|k: int| 0 <= k < 4 * width ==> #[trigger] zero[k] == (if k % 4 == 3 && colors == 3 { 0xffu8 } else { 0u8 }),
    ensures
        zero == first_prev(width, colors),
{
    assert(zero =~= first_prev(width, colors));
}

/// Nothing decoded yet, followed by all the rows, is all the rows.
proof fn lemma_rows_start(out: Seq<u8>, whole: Seq<u8>)
    requires
        out.len() == 0,
    ensures
        out + whole == whole,
{
    assert(out + whole =~= whole);
}

/// Decoding one more row moves its lines from what is left to what is done.
proof fn lemma_rows_step(
    data: Seq<u8>,
    ft: Seq<u8>,
    comp_pos: int,
    prev: Seq<u8>,
    row: int,
    rows: int,
    w: int,
    h: int,
    colors: int,
    initialp: u32,
    o0: Seq<u8>,
    lines: Seq<u8>,
    last: Seq<u8>,
    next: int,
    out: Seq<u8>,
    whole: Seq<u8>,
)
    requires
        row < rows,
        row_decoded(lines, last, data, ft, comp_pos, prev, row, w, h, colors, initialp),
        next == chan_walk(data, comp_pos, colors as nat),
        out == o0 + lines,
        o0 + rows_from(data, ft, comp_pos, prev, row, rows, w, h, colors, initialp) == whole,
    ensures
        out + rows_from(data, ft, next, last, row + 1, rows, w, h, colors, initialp) == whole,
{
    reveal(rows_from);
    reveal(row_decoded);
    let rest = rows_from(data, ft, next, last, row + 1, rows, w, h, colors, initialp);
    assert(o0 + (lines + rest) =~= out + rest);
}

/// Past the last row there is nothing left to decode.
proof fn lemma_rows_end(
    data: Seq<u8>,
    ft: Seq<u8>,
    comp_pos: int,
    prev: Seq<u8>,
    row: int,
    rows: int,
    w: int,
    h: int,
    colors: int,
    initialp: u32,
    out: Seq<u8>,
    whole: Seq<u8>,
)
    requires
        row >= rows,
        out + rows_from(data, ft, comp_pos, prev, row, rows, w, h, colors, initialp) == whole,
    ensures
        out == whole,
{
    reveal(rows_from);
    assert(out + Seq::<u8>::empty() =~= out);
}

/// Each image the stream codes has its block row `row` ready to decode at
/// the row's channel codings.
proof fn lemma_rows_ready(
    data: Seq<u8>,
    start: int,
    comp_pos: int,
    ft: Seq<u8>,
    prev: Seq<u8>,
    row: int,
    w: int,
    h: int,
    colors: int,
    initialp: u32,
)
    requires
        comp_pos == chan_walk(data, start, (row * colors) as nat),
        start == 31 + le_u32_at(data, 27),
        w == le_u32_at(data, 15),
        h == le_u32_at(data, 19),
        data.len() > 11,
        colors == data[11],
        ft == lz_decode(data.subrange(31, start), lzss_train(), 0).0,
        0 <= row < ceil_div8(h),
        colors == 1 || colors == 3 || colors == 4,
        initialp == base_word(colors),
        forall|img: Seq<u8>| #[trigger] tlg6_coded(data, img) ==> forall|c: int| 0 <= c < w ==> #[trigger] le32_or_zero(prev, 4 * c)
            == nb_word(img, w, colors, c, 8 * row - 1),
    ensures
        forall|img: Seq<u8>| #[trigger] tlg6_coded(data, img) ==> row_ready(img, data, comp_pos, ft, prev, row, w, h, colors, initialp),
{
    assert forall|img: Seq<u8>| #[trigger] tlg6_coded(data, img) implies row_ready(img, data, comp_pos, ft, prev, row, w, h, colors, initialp) by {
        reveal(tlg6_coded);
        assert forall|c: int| 0 <= c < colors implies #[trigger] row_chunk_ok(data, chan_walk(data, comp_pos, c as nat), img, w, h, colors, ft, row, c) by {
            assert(chunk_coded(data, start, img, w, h, colors, ft, row, c));
            lemma_chan_walk_add(data, start, (row * colors) as nat, c as nat);
            assert((row * colors) as nat + c as nat == (row * colors + c) as nat) by (nonlinear_arith)
                requires
                    row >= 0,
                    colors >= 0,
                    c >= 0,
            ;
        }
    }
}

/// The lines of one more block row, appended, read as the image's lines.
/// The line above the first row: `width` pixels of the base word.
fn first_line(width: usize, colors: usize) -> (z: Vec<u8>)
    requires
        width <= u32::MAX,
    ensures
        z@ == first_prev(width as int, colors as int),
        z@.len() == 4 * width,
        forall|c: int| 0 <= c < width ==> #[trigger] le32_or_zero(z@, 4 * c) == base_word(colors as int),
{
    let mut zero_line: Vec<u8> = Vec::new();
    let mut i: usize = 0;
    while i < width
        invariant
            i <= width,
            width <= u32::MAX,
            zero_line@.len() == 4 * i,
            forall|k: int| 0 <= k < 4 * i ==> #[trigger] zero_line@[k] == (if k % 4 == 3 && colors == 3 { 0xffu8 } else { 0u8 }),
        decreases width - i,
    {
        zero_line.push(0);
        zero_line.push(0);
        zero_line.push(0);
        zero_line.push(if colors == 3 {
            0xff
        } else {
            0
        });
        i = i + 1;
    }
    proof {
        assert forall|c: int| 0 <= c < width implies #[trigger] le32_or_zero(zero_line@, 4 * c) == base_word(colors as int) by {
            assert(zero_line@[4 * c] == 0 && zero_line@[4 * c + 1] == 0 && zero_line@[4 * c + 2] == 0);
            assert(zero_line@[4 * c + 3] == (if colors == 3 { 0xffu8 } else { 0u8 }));
        }
        lemma_first_prev(zero_line@, width as int, colors as int);
    }
    zero_line
}

/// What a block row adds to what the lines decoded so far hold of an
/// image the stream codes.
proof fn lemma_rows_grow(
    data: Seq<u8>,
    ft: Seq<u8>,
    comp_pos: int,
    p0: Seq<u8>,
    row: int,
    width: int,
    height: int,
    colors: int,
    initialp: u32,
    o0: Seq<u8>,
    lines: Seq<u8>,
    last: Seq<u8>,
    out: Seq<u8>,
    y: int,
    bheight: int,
)
    requires
        width >= 0,
        y >= 0,
        bheight >= 0,
        bheight == row_height(height, row),
        out == o0 + lines,
        o0.len() == 4 * width * y,
        lines.len() == 4 * width * bheight,
        forall|img: Seq<u8>| #[trigger] tlg6_coded(data, img) ==> row_ready(img, data, comp_pos, ft, p0, row, width, height, colors, initialp),
        forall|img: Seq<u8>|
            #[trigger] row_ready(img, data, comp_pos, ft, p0, row, width, height, colors, initialp) ==> {
                &&& forall|rr: int, c: int|
                    0 <= rr < row_height(height, row) && 0 <= c < width ==> #[trigger] le32_or_zero(lines, 4 * (width * rr + c))
                        == target_word(img, width, colors, c, y + rr)
                &&& forall|c: int| 0 <= c < width ==> #[trigger] le32_or_zero(last, 4 * c) == nb_word(
                    img,
                    width,
                    colors,
                    c,
                    y + row_height(height, row) - 1,
                )
            },
        forall|img: Seq<u8>| #[trigger] tlg6_coded(data, img) ==> forall|rr: int, c: int| 0 <= rr < y && 0 <= c < width
            ==> #[trigger] le32_or_zero(o0, 4 * (width * rr + c)) == target_word(img, width, colors, c, rr),
    ensures
        forall|img: Seq<u8>| #[trigger] tlg6_coded(data, img) ==> {
            &&& forall|c: int| 0 <= c < width ==> #[trigger] le32_or_zero(last, 4 * c) == nb_word(
                img,
                width,
                colors,
                c,
                y + bheight - 1,
            )
            &&& forall|rr: int, c: int| 0 <= rr < y + bheight && 0 <= c < width ==> #[trigger] le32_or_zero(
                out,
                4 * (width * rr + c),
            ) == target_word(img, width, colors, c, rr)
        },
{
    assert forall|img: Seq<u8>| #[trigger] tlg6_coded(data, img) implies {
        &&& forall|c: int| 0 <= c < width ==> #[trigger] le32_or_zero(last, 4 * c) == nb_word(img, width, colors, c, y + bheight - 1)
        &&& forall|rr: int, c: int| 0 <= rr < y + bheight && 0 <= c < width ==> #[trigger] le32_or_zero(out, 4 * (width * rr + c))
            == target_word(img, width, colors, c, rr)
    } by {
        assert(row_ready(img, data, comp_pos, ft, p0, row, width, height, colors, initialp));
        lemma_rows_append(img, o0, lines, out, width, y, bheight, colors);
    }
}

proof fn lemma_rows_append(img: Seq<u8>, o0: Seq<u8>, lines: Seq<u8>, out: Seq<u8>, width: int, y: int, bh: int, colors: int)
    requires
        width >= 0,
        y >= 0,
        bh >= 0,
        out == o0 + lines,
        o0.len() == 4 * width * y,
        lines.len() == 4 * width * bh,
        forall|rr: int, c: int| 0 <= rr < y && 0 <= c < width ==> #[trigger] le32_or_zero(o0, 4 * (width * rr + c)) == target_word(
            img,
            width,
            colors,
            c,
            rr,
        ),
        forall|rr: int, c: int| 0 <= rr < bh && 0 <= c < width ==> #[trigger] le32_or_zero(lines, 4 * (width * rr + c))
            == target_word(img, width, colors, c, y + rr),
    ensures
        forall|rr: int, c: int| 0 <= rr < y + bh && 0 <= c < width ==> #[trigger] le32_or_zero(out, 4 * (width * rr + c))
            == target_word(img, width, colors, c, rr),
{
    assert forall|rr: int, c: int| 0 <= rr < y + bh && 0 <= c < width implies #[trigger] le32_or_zero(out, 4 * (width * rr + c))
        == target_word(img, width, colors, c, rr) by {
        let off = 4 * (width * rr + c);
        assert(0 <= off && off + 4 <= out.len()) by (nonlinear_arith)
            requires
                0 <= rr < y + bh,
                0 <= c < width,
                off == 4 * (width * rr + c),
                out.len() == 4 * width * y + 4 * width * bh,
        ;
        if rr < y {
            assert(off + 4 <= o0.len()) by (nonlinear_arith)
                requires
                    0 <= rr < y,
                    0 <= c < width,
                    off == 4 * (width * rr + c),
                    o0.len() == 4 * width * y,
            ;
            assert(out[off] == o0[off] && out[off + 1] == o0[off + 1] && out[off + 2] == o0[off + 2] && out[off + 3] == o0[off + 3]);
            lemma_le32_eq(out, off, o0, off);
        } else {
            let r2 = rr - y;
            let off2 = 4 * (width * r2 + c);
            assert(off == o0.len() + off2 && 0 <= off2 && off2 + 4 <= lines.len()) by (nonlinear_arith)
                requires
                    r2 == rr - y,
                    0 <= r2 < bh,
                    0 <= c < width,
                    off == 4 * (width * rr + c),
                    off2 == 4 * (width * r2 + c),
                    o0.len() == 4 * width * y,
                    lines.len() == 4 * width * bh,
            ;
            assert(out[off] == lines[off2] && out[off + 1] == lines[off2 + 1] && out[off + 2] == lines[off2 + 2] && out[off + 3]
                == lines[off2 + 3]);
            lemma_le32_eq(out, off, lines, off2);
            assert(le32_or_zero(lines, 4 * (width * r2 + c)) == target_word(img, width, colors, c, y + r2));
        }
    }
}

/// Decodes the block rows of a stream whose header is checked: `fs` bytes
/// of compressed filter table decompressed to `ft`, an image `w` by `h` of
/// `colors` channels.  Returns the lines, four bytes per pixel; fails as the
/// stream walk `t6_scan` does.  For an image the stream codes, the lines
/// are the image's.
#[verifier::loop_isolation(false)]
#[verifier::spinoff_prover]
#[verifier::rlimit(100)]
fn decode_rows(data: &[u8], fs: usize, ft: &Vec<u8>, w: u32, h: u32, colors: usize) -> (r: Result<Vec<u8>, TlgError>)
    requires
        31 + fs <= data@.len(),
        fs == le_u32_at(data@, 27),
        w == le_u32_at(data@, 15),
        h == le_u32_at(data@, 19),
        colors == data@[11],
        colors == 1 || colors == 3 || colors == 4,
        w * h * 4 <= usize::MAX,
        ft@ == lz_decode(data@.subrange(31, 31 + fs as int), lzss_train(), 0).0,
    ensures
        match r {
            Err(e) => t6_scan(data@, 31 + fs, 0, ceil_div8(h as int), colors as int, 0, ft@.len() as int, x_blocks(w as int))
                == Err::<(), TlgError>(e),
            Ok(out) => {
                &&& t6_scan(data@, 31 + fs, 0, ceil_div8(h as int), colors as int, 0, ft@.len() as int, x_blocks(w as int))
                    == Ok::<(), TlgError>(())
                &&& out@.len() == 4 * w * h
                &&& out@ == rows_from(
                    data@,
                    ft@,
                    31 + fs,
                    first_prev(w as int, colors as int),
                    0,
                    ceil_div8(h as int),
                    w as int,
                    h as int,
                    colors as int,
                    base_word(colors as int),
                )
                &&& forall|img: Seq<u8>| #[trigger] tlg6_coded(data@, img) ==> forall|rr: int, c: int|
                    0 <= rr < h && 0 <= c < w ==> #[trigger] le32_or_zero(out@, 4 * (w * rr + c)) == target_word(
                        img,
                        w as int,
                        colors as int,
                        c,
                        rr,
                    )
            },
        },
{
    let width = w as usize;
    let height = h as usize;
    let xbc: usize = if width == 0 {
        1
    } else {
        width / 8 + if width % 8 != 0 {
            1
        } else {
            0
        }
    };
    let initialp: u32 = if colors == 3 {
        0xff00_0000
    } else {
        0
    };
    let zero_line = first_line(width, colors);
    let ghost rows = ceil_div8(height as int);
    let ghost ftlen = ft@.len() as int;
    let ghost s0 = t6_scan(data@, 31 + fs, 0, rows, colors as int, 0, ftlen, xbc as int);
    let mut out: Vec<u8> = Vec::new();
    let ghost whole = rows_from(data@, ft@, 31 + fs, zero_line@, 0, rows, w as int, h as int, colors as int, initialp);
    proof {
        lemma_rows_start(out@, whole);
    }
    let mut prevline = zero_line;
    assert(data.len() >= 31 + fs);
    let mut comp_pos: usize = 31 + fs;
    let mut y: usize = 0;
    let mut row: usize = 0;
    #[verifier::loop_isolation(false)]
    while y < height
        invariant
            width == w,
            height == h,
            w * h * 4 <= usize::MAX,
            colors == data@[11],
            xbc == x_blocks(width as int),
            ftlen == ft@.len(),
            rows == ceil_div8(height as int),
            row <= rows,
            y == (if row < rows { 8 * row } else { height as int }),
            comp_pos <= data@.len(),
            prevline@.len() == 4 * width,
            out@.len() == 4 * width * y,
            s0 == t6_scan(data@, comp_pos as int, row as int, rows, colors as int, 0, ftlen, xbc as int),
            comp_pos == chan_walk(data@, 31 + fs, (row * colors) as nat),
            initialp == base_word(colors as int),
            out@ + rows_from(data@, ft@, comp_pos as int, prevline@, row as int, rows, w as int, h as int, colors as int, initialp)
                == whole,
            forall|img: Seq<u8>| #[trigger] tlg6_coded(data@, img) ==> {
                &&& forall|c: int| 0 <= c < width ==> #[trigger] le32_or_zero(prevline@, 4 * c) == nb_word(
                    img,
                    width as int,
                    colors as int,
                    c,
                    y - 1,
                )
                &&& forall|rr: int, c: int| 0 <= rr < y && 0 <= c < width ==> #[trigger] le32_or_zero(
                    out@,
                    4 * (width * rr + c),
                ) == target_word(img, width as int, colors as int, c, rr)
            },
        decreases height - y,
    {
        let bheight = if height - y < 8 {
            height - y
        } else {
            8
        };
        assert(row < rows);
        assert(y == 8 * row);
        let ghost p0 = prevline@;
        proof {
            lemma_rows_ready(data@, 31 + fs, comp_pos as int, ft@, p0, row as int, width as int, height as int, colors as int, initialp);
        }
        let (lines, last, next) = match decode_block_row(data, comp_pos, row, y, width, height, colors, xbc, &ft, prevline, initialp) {
            Ok(t) => t,
            Err(e) => {
                return Err(e);
            },
        };
        let ghost o0 = out@;
        crate::container::append_slice(&mut out, lines.as_slice());
        proof {
            lemma_rows_step(data@, ft@, comp_pos as int, p0, row as int, rows, w as int, h as int, colors as int, initialp, o0, lines@,
                last@, next as int, out@, whole);
        }
        assert(4 * width * y + 4 * width * bheight == 4 * width * (y + bheight)) by (nonlinear_arith);
        proof {
            lemma_chan_walk_add(data@, 31 + fs, (row * colors) as nat, colors as nat);
            assert((row * colors) as nat + colors as nat == ((row + 1) * colors) as nat) by (nonlinear_arith);
            assert(row_height(height as int, row as int) == bheight);
            lemma_rows_grow(data@, ft@, comp_pos as int, p0, row as int, width as int, height as int, colors as int, initialp, o0,
                lines@, last@, out@, y as int, bheight as int);
        }
        prevline = last;
        comp_pos = next;
        y = y + bheight;
        row = row + 1;
        assert(y == (if row < rows { 8 * row } else { height as int }));
    }
    assert(4 * width * height == 4 * w * h) by (nonlinear_arith)
        requires
            width == w,
            height == h,
    ;
    proof {
        lemma_rows_end(data@, ft@, comp_pos as int, prevline@, row as int, rows, w as int, h as int, colors as int, initialp, out@, whole);
    }
    Ok(out)
}

/// `n` four-byte pixels (blue, green, red, alpha) in the layout's channels,
/// red first.
pub open spec fn layout_pixels(lines: Seq<u8>, n: nat, layout: PixelLayout) -> Seq<u8> {
    let k = spec_colors(layout) as int;
    Seq::new(n * spec_colors(layout), |j: int| lines[4 * (j / k) + bgra_index(layout, j % k)])
}

/// The raw pixels a TLG6 stream decodes to, where it decodes (see
/// `tlg6_decode_spec`): its block rows one after the other, from the
/// channel codings after the filter codes, in the layout of its header.
pub open spec fn tlg6_pixels(data: Seq<u8>) -> Seq<u8> {
    let fs = le_u32_at(data, 27);
    let w = le_u32_at(data, 15);
    let h = le_u32_at(data, 19);
    let colors = data[11] as int;
    let ft = lz_decode(data.subrange(31, 31 + fs), lzss_train(), 0).0;
    let lines = rows_from(data, ft, 31 + fs, first_prev(w, colors), 0, ceil_div8(h), w, h, colors, base_word(colors));
    layout_pixels(lines, (w * h) as nat, layout_of_colors(data[11]).unwrap())
}

/// A stream that codes an image is one the decoder accepts.
pub proof fn lemma_coded_accepts(data: Seq<u8>)
    ensures
        forall|img: Seq<u8>| #[trigger] tlg6_coded(data, img) ==> tlg6_decode_spec(data) is Ok,
{
    reveal(tlg6_coded);
}

/// TLG6 decoder over the bytes of a whole TLG6 stream.
pub struct Tlg6Decoder {
    data: Vec<u8>,
}

impl Tlg6Decoder {
    /// The stream.
    pub closed spec fn bytes(&self) -> Seq<u8> {
        self.data@
    }

    /// A decoder over `data`; refuses data shorter than the fixed header.
    pub fn from_data(data: Vec<u8>) -> (r: Result<Tlg6Decoder, TlgError>)
        ensures
            data@.len() < 27 ==> r is Err && r->Err_0 == TlgError::DataTooShort,
            data@.len() >= 27 ==> r is Ok && r->Ok_0.bytes() == data@,
    {
        if data.len() < 27 {
            return Err(TlgError::DataTooShort);
        }
        Ok(Tlg6Decoder { data })
    }

    /// Decodes the stream into raw pixels (`colors` bytes per pixel, rows
    /// top to bottom, red first) and the image description.  Fails exactly
    /// where `tlg6_decode_spec` fails, with its error; the pixels are those
    /// `tlg6_pixels` gives, and for a stream that codes an image, the
    /// image's.
    pub fn decode(self) -> (r: Result<(Vec<u8>, ImageInfo), TlgError>)
        ensures
            match tlg6_decode_spec(self.bytes()) {
                Ok(info) => r matches Ok((px, i)) && i == info && px@.len() == info.width * info.height * spec_colors(
                    info.pixel_layout,
                ),
                Err(e) => r == Err::<(Vec<u8>, ImageInfo), TlgError>(e),
            },
            r matches Ok((px, _)) ==> px@ == tlg6_pixels(self.bytes()),
            forall|img: Seq<u8>| #[trigger] tlg6_coded(self.bytes(), img) ==> (r matches Ok((px, info)) && px@ == img.take(
                info.width * info.height * spec_colors(info.pixel_layout),
            )),
    {
        let data = self.data.as_slice();
        proof {
            lemma_coded_accepts(data@);
        }
        let (layout, w, h, fs) = match decode_header(data) {
            Ok(hd) => hd,
            Err(e) => {
                return Err(e);
            },
        };
        let colors = layout.colors();
        let width = w as usize;
        let height = h as usize;
        let text = lzss_text();
        let mut slide = SlideDecoder::new();
        slide.init_with_text(text.as_slice());
        proof {
            assert(text@.take(4096) =~= text@);
        }
        let ft = slide.decode(&data[31..31 + fs]);
        let out = match decode_rows(data, fs, &ft, w, h, colors) {
            Ok(o) => o,
            Err(e) => {
                return Err(e);
            },
        };
        assert(4 * width * height == width * height * 4) by (nonlinear_arith);
        let px = from_bgra(&out, width * height, layout);
        proof {
            let k = spec_colors(layout) as int;
            let lp = layout_pixels(out@, (width * height) as nat, layout);
            assert(k == 1 || k == 3 || k == 4);
            assert forall|j: int| 0 <= j < px@.len() implies px@[j] == lp[j] by {
                let i = j / k;
                let c = j % k;
                vstd::arithmetic::div_mod::lemma_fundamental_div_mod(j, k);
                assert(j == i * k + c) by (nonlinear_arith)
                    requires
                        j == k * (j / k) + j % k,
                        i == j / k,
                        c == j % k,
                ;
                assert(0 <= i < width * height) by (nonlinear_arith)
                    requires
                        0 <= j < (width * height) * k,
                        i == j / k,
                        k > 0,
                        j >= 0,
                ;
            }
            assert(px@ =~= lp);
        }
        proof {
            assert forall|img: Seq<u8>| #[trigger] tlg6_coded(data@, img) implies px@ == img.take(
                w * h * spec_colors(layout),
            ) by {
                assert(4 * (width * height) == 4 * width * height) by (nonlinear_arith);
                assert(img.len() >= w * h * spec_colors(layout)) by {
                    reveal(tlg6_coded);
                }
                lemma_bgra_image(out@, px@, img, width as int, height as int, layout);
            }
        }
        Ok((px, ImageInfo { width: w, height: h, pixel_layout: layout }))
    }
}

} // verus!
