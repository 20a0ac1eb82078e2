use vstd::prelude::*;
use crate::bytes::{le_bytes, le_u32_at, lemma_le_bytes_value, push_u32_le};
use crate::container::append_slice;
use crate::slide::{
    initial_recency, initial_window, lz_decode, lz_tokens, relinked, serialize, write_all, SlideCompressor, SLIDE_N,
};
use crate::tlg_type::{spec_colors, ImageInfo, PixelLayout, TlgError};
use super::{
    block_count, block_rows, layout_of_colors, max_block_rows, parse_blocks, parse_plane, parse_planes, t5_image, t5_pixel,
    t5_row_sum, t5_value, tlg5_block_sizes, tlg5_decode_spec, tlg5_header, tlg5_magic,
};
use super::decode::lemma_coords;

verus! {

/// TLG5 encoder over raw pixels (`colors` bytes per pixel, rows top to bottom).
pub struct Tlg5Encoder {
    data: Vec<u8>,
    height: u32,
    width: u32,
    pixel: PixelLayout,
}

/// Channel `c` of pixel `(x, y)` of an image `width` pixels wide.
pub open spec fn px(data: Seq<u8>, width: int, colors: int, y: int, x: int, c: int) -> int {
    data[y * (width * colors) + x * colors + c] as int
}

/// The vertical difference: the pixel minus the pixel above (mod 256).
#[verifier::opaque]
pub open spec fn enc_cl(data: Seq<u8>, width: int, colors: int, y: int, x: int, c: int) -> int {
    if y <= 0 {
        px(data, width, colors, y, x, c)
    } else {
        (px(data, width, colors, y, x, c) - px(data, width, colors, y - 1, x, c)) % 256
    }
}

/// The horizontal difference of the vertical differences (mod 256).
#[verifier::opaque]
pub open spec fn enc_val(data: Seq<u8>, width: int, colors: int, y: int, x: int, c: int) -> int {
    if x <= 0 {
        enc_cl(data, width, colors, y, x, c)
    } else {
        (enc_cl(data, width, colors, y, x, c) - enc_cl(data, width, colors, y, x - 1, c)) % 256
    }
}

/// What plane `c` stores for pixel `(x, y)`: green as is, red and blue
/// relative to green.
pub open spec fn enc_plane_val(data: Seq<u8>, width: int, layout: PixelLayout, y: int, x: int, c: int) -> u8 {
    let colors = spec_colors(layout) as int;
    match layout {
        PixelLayout::Gray => enc_val(data, width, colors, y, x, 0) as u8,
        _ => if c == 0 {
            ((enc_val(data, width, colors, y, x, 2) - enc_val(data, width, colors, y, x, 1)) % 256) as u8
        } else if c == 1 {
            enc_val(data, width, colors, y, x, 1) as u8
        } else if c == 2 {
            ((enc_val(data, width, colors, y, x, 0) - enc_val(data, width, colors, y, x, 1)) % 256) as u8
        } else {
            enc_val(data, width, colors, y, x, 3) as u8
        },
    }
}

/// Plane `c` of block `b`.
pub open spec fn enc_plane(data: Seq<u8>, width: int, height: int, layout: PixelLayout, b: int, c: int) -> Seq<u8> {
    Seq::new(
        (width * block_rows(height, b)) as nat,
        |k: int| enc_plane_val(data, width, layout, 4 * b + k / width, k % width, c),
    )
}

/// All planes of all blocks.
pub open spec fn enc_planes(data: Seq<u8>, width: int, height: int, layout: PixelLayout) -> Seq<Seq<Seq<u8>>> {
    Seq::new(
        block_count(height) as nat,
        |b: int| Seq::new(spec_colors(layout), |c: int| enc_plane(data, width, height, layout, b, c)),
    )
}

/// Component `c` of a four-tuple of bytes.
pub open spec fn at4(t: (u8, u8, u8, u8), c: int) -> u8 {
    if c == 0 {
        t.0
    } else if c == 1 {
        t.1
    } else if c == 2 {
        t.2
    } else {
        t.3
    }
}

proof fn lemma_mod_cancel(a: int, b: int)
    ensures
        ((a - b) % 256 + b) % 256 == a % 256,
{
    vstd::arithmetic::div_mod::lemma_add_mod_noop_right(b, a - b, 256);
    assert(b + ((a - b) % 256) == (a - b) % 256 + b);
}

proof fn lemma_enc_ranges(data: Seq<u8>, width: int, colors: int, y: int, x: int, c: int)
    ensures
        0 <= enc_cl(data, width, colors, y, x, c) < 256,
        0 <= enc_val(data, width, colors, y, x, c) < 256,
{
    reveal(enc_cl);
    reveal(enc_val);
}

/// The planes give back the second differences.
#[verifier::rlimit(30)]
proof fn lemma_value_is_enc(data: Seq<u8>, width: int, height: int, layout: PixelLayout, y: int, x: int, c: int)
    requires
        0 <= y < height,
        0 <= x < width,
        0 <= c < spec_colors(layout),
    ensures
        t5_value(enc_planes(data, width, height, layout), width, layout, y, x, c) == enc_val(
            data,
            width,
            spec_colors(layout) as int,
            y,
            x,
            c,
        ),
{
    let colors = spec_colors(layout) as int;
    let p = enc_planes(data, width, height, layout);
    let b = y / 4;
    let r = y % 4;
    let k = r * width + x;
    assert forall|c2: int| 0 <= c2 < colors implies #[trigger] p[b][c2][k] == enc_plane_val(data, width, layout, y, x, c2) by {
        lemma_plane_entry(data, width, height, layout, y, x, c2);
    }
    let v0 = enc_val(data, width, colors, y, x, 0);
    let v1 = enc_val(data, width, colors, y, x, 1);
    let v2 = enc_val(data, width, colors, y, x, 2);
    lemma_enc_ranges(data, width, colors, y, x, 0);
    lemma_enc_ranges(data, width, colors, y, x, 1);
    lemma_enc_ranges(data, width, colors, y, x, 2);
    lemma_enc_ranges(data, width, colors, y, x, 3);
    reveal(t5_value);
    if colors >= 3 {
        lemma_mod_cancel(v0, v1);
        lemma_mod_cancel(v2, v1);
        assert(p[b][1][k] as int == v1);
        assert(p[b][2][k] as int == (v0 - v1) % 256);
        assert(p[b][0][k] as int == (v2 - v1) % 256);
    }
}

proof fn lemma_plane_entry(data: Seq<u8>, width: int, height: int, layout: PixelLayout, y: int, x: int, c: int)
    requires
        0 <= y < height,
        0 <= x < width,
        0 <= c < spec_colors(layout),
    ensures
        enc_planes(data, width, height, layout)[y / 4][c][(y % 4) * width + x] == enc_plane_val(data, width, layout, y, x, c),
{
    let p = enc_planes(data, width, height, layout);
    let b = y / 4;
    let r = y % 4;
    let k = r * width + x;
    assert(b < block_count(height));
    assert(r < block_rows(height, b));
    assert(k < width * block_rows(height, b)) by (nonlinear_arith)
        requires
            k == r * width + x,
            0 <= x < width,
            0 <= r < block_rows(height, b),
    ;
    vstd::arithmetic::div_mod::lemma_fundamental_div_mod_converse(k, width, r, x);
    assert(4 * b + r == y);
    assert(p[b][c] == enc_plane(data, width, height, layout, b, c));
}

proof fn lemma_row_sum_is_cl(data: Seq<u8>, width: int, height: int, layout: PixelLayout, y: int, x: int, c: int)
    requires
        0 <= y < height,
        0 <= x < width,
        0 <= c < spec_colors(layout),
    ensures
        t5_row_sum(enc_planes(data, width, height, layout), width, layout, y, x, c) == enc_cl(
            data,
            width,
            spec_colors(layout) as int,
            y,
            x,
            c,
        ),
    decreases x,
{
    let colors = spec_colors(layout) as int;
    lemma_value_is_enc(data, width, height, layout, y, x, c);
    lemma_enc_ranges(data, width, colors, y, x, c);
    reveal(enc_val);
    if x > 0 {
        lemma_row_sum_is_cl(data, width, height, layout, y, x - 1, c);
        lemma_enc_ranges(data, width, colors, y, x - 1, c);
        let a = enc_cl(data, width, colors, y, x, c);
        let b = enc_cl(data, width, colors, y, x - 1, c);
        lemma_mod_cancel(a, b);
        assert(b + (a - b) % 256 == (a - b) % 256 + b);
    }
}

proof fn lemma_pixel_is_px(data: Seq<u8>, width: int, height: int, layout: PixelLayout, y: int, x: int, c: int)
    requires
        0 <= y < height,
        0 <= x < width,
        0 <= c < spec_colors(layout),
    ensures
        t5_pixel(enc_planes(data, width, height, layout), width, layout, y, x, c) == px(
            data,
            width,
            spec_colors(layout) as int,
            y,
            x,
            c,
        ),
    decreases y,
{
    let colors = spec_colors(layout) as int;
    lemma_row_sum_is_cl(data, width, height, layout, y, x, c);
    reveal(enc_cl);
    if y > 0 {
        lemma_pixel_is_px(data, width, height, layout, y - 1, x, c);
        let a = px(data, width, colors, y, x, c);
        let b = px(data, width, colors, y - 1, x, c);
        lemma_mod_cancel(a, b);
        assert(b + (a - b) % 256 == (a - b) % 256 + b);
    }
}

/// Decoding the encoder's planes gives back the pixels.
proof fn lemma_enc_image(data: Seq<u8>, width: int, height: int, layout: PixelLayout)
    requires
        width >= 0,
        height >= 0,
        data.len() >= width * height * spec_colors(layout),
    ensures
        t5_image(enc_planes(data, width, height, layout), width, height, layout) == data.take(
            width * height * spec_colors(layout),
        ),
{
    let colors = spec_colors(layout) as int;
    let p = enc_planes(data, width, height, layout);
    let img = t5_image(p, width, height, layout);
    let n = width * height * colors;
    assert forall|i: int| 0 <= i < n implies #[trigger] img[i] == data[i] by {
        let y = i / (width * colors);
        let x = (i % (width * colors)) / colors;
        let c = i % colors;
        assert(width * colors > 0) by (nonlinear_arith)
            requires
                0 <= i < width * height * colors,
                width >= 0,
                height >= 0,
                colors >= 1,
        ;
        vstd::arithmetic::div_mod::lemma_fundamental_div_mod(i, width * colors);
        vstd::arithmetic::div_mod::lemma_fundamental_div_mod(i % (width * colors), colors);
        assert(0 <= i % (width * colors) < width * colors);
        assert(0 <= y < height) by (nonlinear_arith)
            requires
                0 <= i < width * height * colors,
                y == i / (width * colors),
                width * colors > 0,
        ;
        assert(0 <= x < width) by (nonlinear_arith)
            requires
                0 <= i % (width * colors) < width * colors,
                x == (i % (width * colors)) / colors,
                colors >= 1,
        ;
        assert(0 <= c < colors);
        vstd::arithmetic::div_mod::lemma_mod_mod(i, colors, width);
        assert(colors * width == width * colors) by (nonlinear_arith);
        assert(i % (width * colors) == colors * x + (i % (width * colors)) % colors);
        assert(i == y * (width * colors) + x * colors + c) by (nonlinear_arith)
            requires
                i == (width * colors) * y + i % (width * colors),
                i % (width * colors) == colors * x + c,
        ;
        lemma_pixel_is_px(data, width, height, layout, y, x, c);
    }
    assert(img =~= data.take(n));
}

/// The plane values of a color pixel from its difference values.
proof fn lemma_color_planes(
    data: Seq<u8>,
    width: int,
    layout: PixelLayout,
    y: int,
    x: int,
    r: ((u8, u8, u8, u8), (u8, u8, u8, u8)),
)
    requires
        spec_colors(layout) >= 3,
        forall|c: int| 0 <= c < spec_colors(layout) ==> #[trigger] at4(r.0, c) as int == enc_cl(data, width, spec_colors(layout) as int, y, x, c),
        r.1.1 as int == enc_val(data, width, spec_colors(layout) as int, y, x, 1),
        r.1.0 as int == (enc_val(data, width, spec_colors(layout) as int, y, x, 2) - r.1.1) % 256,
        r.1.2 as int == (enc_val(data, width, spec_colors(layout) as int, y, x, 0) - r.1.1) % 256,
        spec_colors(layout) == 4 ==> r.1.3 as int == enc_val(data, width, spec_colors(layout) as int, y, x, 3),
    ensures
        forall|c: int| 0 <= c < spec_colors(layout) ==> #[trigger] at4(r.0, c) as int == enc_cl(data, width, spec_colors(layout) as int, y, x, c)
            && at4(r.1, c) == enc_plane_val(data, width, layout, y, x, c),
{
    let colors = spec_colors(layout) as int;
    lemma_enc_ranges(data, width, colors, y, x, 0);
    lemma_enc_ranges(data, width, colors, y, x, 1);
    lemma_enc_ranges(data, width, colors, y, x, 2);
    lemma_enc_ranges(data, width, colors, y, x, 3);
    assert forall|c: int| 0 <= c < colors implies #[trigger] at4(r.0, c) as int == enc_cl(data, width, colors, y, x, c)
        && at4(r.1, c) == enc_plane_val(data, width, layout, y, x, c) by {
        if c == 0 {
        } else if c == 1 {
        } else if c == 2 {
        } else {
        }
    }
}

/// Where the channels of pixel `(x, y)` lie in the raw pixels.
proof fn lemma_pixel_bounds(width: int, height: int, colors: int, y: int, x: int, idx: int)
    requires
        0 <= y < height,
        0 <= x < width,
        colors >= 1,
        idx == y * (width * colors) + x * colors,
    ensures
        idx + colors <= width * height * colors,
        y > 0 ==> idx >= width * colors,
{
    let stride = width * colors;
    assert(idx + colors <= (y + 1) * stride) by (nonlinear_arith)
        requires
            idx == y * stride + x * colors,
            x < width,
            stride == width * colors,
            colors >= 1,
    ;
    assert((y + 1) * stride <= width * height * colors) by (nonlinear_arith)
        requires
            y < height,
            stride == width * colors,
            stride >= 0,
    ;
    if y > 0 {
        assert(idx >= stride) by (nonlinear_arith)
            requires
                idx == y * stride + x * colors,
                y >= 1,
                colors >= 0,
                x >= 0,
                stride == width * colors,
                width >= 0,
        ;
    }
}

/// The vertical and horizontal differences of one channel value.
fn second_diff(data: &Vec<u8>, i: usize, stride: usize, has_up: bool, prev: u8) -> (r: (u8, u8))
    requires
        i < data@.len(),
        has_up ==> i >= stride,
    ensures
        r.0 as int == (if has_up {
            (data@[i as int] - data@[i - stride]) % 256
        } else {
            data@[i as int] as int
        }),
        r.1 as int == (r.0 - prev) % 256,
{
    let cur = data[i];
    let cl = if has_up {
        cur.wrapping_sub(data[i - stride])
    } else {
        cur
    };
    (cl, cl.wrapping_sub(prev))
}

/// One step of a channel along a row: the difference values of `(x, y)`
/// from those of `(x - 1, y)`.
proof fn lemma_diff_step(data: Seq<u8>, width: int, colors: int, y: int, x: int, c: int, i: int, stride: int, prev: u8, r: (u8, u8))
    requires
        0 <= y,
        0 <= x,
        0 <= c < colors,
        stride == width * colors,
        i == y * stride + x * colors + c,
        prev as int == (if x == 0 { 0 } else { enc_cl(data, width, colors, y, x - 1, c) }),
        r.0 as int == (if y > 0 { (data[i] - data[i - stride]) % 256 } else { data[i] as int }),
        r.1 as int == (r.0 - prev) % 256,
    ensures
        r.0 as int == enc_cl(data, width, colors, y, x, c),
        r.1 as int == enc_val(data, width, colors, y, x, c),
{
    reveal(enc_cl);
    reveal(enc_val);
    if y > 0 {
        assert(i - stride == (y - 1) * (width * colors) + x * colors + c) by (nonlinear_arith)
            requires
                i == y * stride + x * colors + c,
                stride == width * colors,
        ;
    }
    if x == 0 {
        assert(0 <= r.0 < 256);
    }
}

/// The bytes of one plane: its flag, its size, and its payload.
pub open spec fn plane_bytes(flag: u8, payload: Seq<u8>) -> Seq<u8> {
    seq![flag] + le_bytes(payload.len() as u32) + payload
}

/// What the LZSS coder carries from plane to plane: the window and write
/// position, and the link times and time.
pub type LzState = ((Seq<u8>, int), (Seq<nat>, nat));

/// The coder's state at the start of a TLG5 stream: a fresh compressor.
pub open spec fn lz_start() -> LzState {
    ((initial_window(), 0), (initial_recency(), SLIDE_N as nat))
}

/// The LZSS coding of `raw` from coder state `st`.
pub open spec fn lz_code(st: LzState, raw: Seq<u8>) -> Seq<u8> {
    serialize(lz_tokens(st.0.0, st.0.1, st.1.0, st.1.1, raw, 0))
}

/// The coder's state after coding `raw` from state `st`.
pub open spec fn lz_after(st: LzState, raw: Seq<u8>) -> LzState {
    (write_all(st.0.0, st.0.1, raw), (relinked(st.1.0, st.0.0, st.0.1, st.1.1, raw), st.1.1 + 2 * raw.len()))
}

/// One plane as the encoder writes it, and the coder's state after it:
/// LZSS-coded under flag 0 where the coding is strictly shorter than the
/// plane; otherwise stored under flag 1, the coder left where it was.
pub open spec fn plane_record(st: LzState, raw: Seq<u8>) -> (Seq<u8>, LzState) {
    let code = lz_code(st, raw);
    if code.len() < raw.len() {
        (plane_bytes(0u8, code), lz_after(st, raw))
    } else {
        (plane_bytes(1u8, raw), st)
    }
}

/// The records of `planes` written in order from coder state `st`, and the
/// coder's state after them.
pub open spec fn plane_records(st: LzState, planes: Seq<Seq<u8>>) -> (Seq<u8>, LzState)
    decreases planes.len(),
{
    if planes.len() == 0 {
        (Seq::empty(), st)
    } else {
        let pre = plane_records(st, planes.drop_last());
        let rec = plane_record(pre.1, planes.last());
        (pre.0 + rec.0, rec.1)
    }
}

/// The planes of block `b`, one per channel.
pub open spec fn block_planes_of(data: Seq<u8>, width: int, height: int, layout: PixelLayout, b: int) -> Seq<Seq<u8>> {
    Seq::new(spec_colors(layout), |c: int| enc_plane(data, width, height, layout, b, c))
}

/// The bytes of the first `n` blocks, their sizes, and the coder's state
/// after them.
pub open spec fn block_records(data: Seq<u8>, width: int, height: int, layout: PixelLayout, n: nat) -> (
    Seq<u8>,
    Seq<int>,
    LzState,
)
    decreases n,
{
    if n == 0 {
        (Seq::empty(), Seq::empty(), lz_start())
    } else {
        let pre = block_records(data, width, height, layout, (n - 1) as nat);
        let rec = plane_records(pre.2, block_planes_of(data, width, height, layout, n - 1));
        (pre.0 + rec.0, pre.1.push(rec.0.len() as int), rec.1)
    }
}

/// The block size table: each size as four little-endian bytes.
pub open spec fn sizes_bytes(sizes: Seq<int>) -> Seq<u8>
    decreases sizes.len(),
{
    if sizes.len() == 0 {
        Seq::empty()
    } else {
        sizes_bytes(sizes.drop_last()) + le_bytes(sizes.last() as u32)
    }
}

/// The TLG5 stream the encoder writes: magic, colour count, width, height,
/// block height 4, the block size table, then the blocks, each holding one
/// plane record per channel (see `plane_record`), all planes coded by one
/// LZSS coder in order.
pub open spec fn tlg5_stream(data: Seq<u8>, width: u32, height: u32, layout: PixelLayout) -> Seq<u8> {
    let blocks = block_records(data, width as int, height as int, layout, block_count(height as int) as nat);
    tlg5_magic() + seq![spec_colors(layout) as u8] + le_bytes(width) + le_bytes(height) + le_bytes(4u32) + sizes_bytes(
        blocks.1,
    ) + blocks.0
}

proof fn lemma_plane_records_len(st: LzState, ps: Seq<Seq<u8>>, l: int)
    requires
        l >= 0,
        forall|i: int| 0 <= i < ps.len() ==> (#[trigger] ps[i]).len() == l,
    ensures
        plane_records(st, ps).0.len() <= ps.len() * (5 + l),
    decreases ps.len(),
{
    if ps.len() > 0 {
        let p0 = ps.drop_last();
        assert forall|i: int| 0 <= i < p0.len() implies (#[trigger] p0[i]).len() == l by {
            assert(p0[i] == ps[i]);
        }
        lemma_plane_records_len(st, p0, l);
        assert(ps.last().len() == l);
        assert(ps.len() * (5 + l) == (ps.len() - 1) * (5 + l) + 5 + l) by (nonlinear_arith);
    }
}

proof fn lemma_sizes_bytes_len(sizes: Seq<int>)
    ensures
        sizes_bytes(sizes).len() == 4 * sizes.len(),
    decreases sizes.len(),
{
    if sizes.len() > 0 {
        lemma_sizes_bytes_len(sizes.drop_last());
    }
}

/// The rows of the first `n` blocks.
spec fn rows_upto(height: int, n: int) -> int {
    if 4 * n <= height {
        4 * n
    } else {
        height
    }
}

proof fn lemma_block_records_len(data: Seq<u8>, width: int, height: int, layout: PixelLayout, n: nat)
    requires
        width >= 0,
        height >= 0,
        n <= block_count(height),
    ensures
        block_records(data, width, height, layout, n).1.len() == n,
        block_records(data, width, height, layout, n).0.len() <= spec_colors(layout) * (5 * n + width * rows_upto(height, n as int)),
    decreases n,
{
    if n > 0 {
        let m = (n - 1) as nat;
        lemma_block_records_len(data, width, height, layout, m);
        let pre = block_records(data, width, height, layout, m);
        let bp = block_planes_of(data, width, height, layout, m as int);
        let rows = block_rows(height, m as int);
        assert(4 * m < height);
        assert(0 < rows <= 4);
        assert(width * rows >= 0) by (nonlinear_arith)
            requires
                width >= 0,
                rows > 0,
        ;
        lemma_plane_records_len(pre.2, bp, width * rows);
        let c = spec_colors(layout) as int;
        assert(rows_upto(height, m as int) + rows == rows_upto(height, n as int));
        let a = pre.0.len() as int;
        let b = plane_records(pre.2, bp).0.len() as int;
        assert(a + b <= c * (5 * n + width * rows_upto(height, n as int))) by (nonlinear_arith)
            requires
                a <= c * (5 * m + width * rows_upto(height, m as int)),
                b <= c * (5 + width * rows),
                rows_upto(height, m as int) + rows == rows_upto(height, n as int),
                n == m + 1,
        ;
    }
}

/// A TLG5 stream is at most its header, its size table, and every plane
/// stored with its flag and size.
pub proof fn lemma_tlg5_stream_len(data: Seq<u8>, width: u32, height: u32, layout: PixelLayout)
    ensures
        tlg5_stream(data, width, height, layout).len() <= 24 + 4 * block_count(height as int) + spec_colors(layout) * (5
            * block_count(height as int) + width * height),
{
    let bc = block_count(height as int);
    lemma_block_records_len(data, width as int, height as int, layout, bc as nat);
    let blocks = block_records(data, width as int, height as int, layout, bc as nat);
    lemma_sizes_bytes_len(blocks.1);
    assert(rows_upto(height as int, bc) == height);
}

proof fn lemma_parse_plane_bytes(flag: u8, payload: Seq<u8>, t: Seq<u8>)
    requires
        payload.len() <= u32::MAX,
    ensures
        ({
            let rest = plane_bytes(flag, payload) + t;
            &&& rest.len() >= 5
            &&& rest[0] == flag
            &&& le_u32_at(rest, 1) == payload.len()
            &&& rest.len() >= 5 + payload.len()
            &&& rest.subrange(5, 5 + payload.len() as int) == payload
            &&& rest.skip(5 + payload.len() as int) == t
        }),
{
    let n = payload.len() as u32;
    let rest = plane_bytes(flag, payload) + t;
    lemma_le_bytes_value(n);
    let lb = le_bytes(n);
    assert(rest[1] == lb[0] && rest[2] == lb[1] && rest[3] == lb[2] && rest[4] == lb[3]);
    assert(rest.subrange(5, 5 + payload.len() as int) =~= payload);
    assert(rest.skip(5 + payload.len() as int) =~= t);
}

/// Compresses `raw` as one plane, or stores it when compressing does not
/// make it shorter, and appends the plane to `body`.  Returns its size.
fn write_plane(body: &mut Vec<u8>, comp: &mut SlideCompressor, raw: &Vec<u8>) -> (size: usize)
    requires
        old(comp).wf(),
        raw@.len() + 5 <= u32::MAX,
    ensures
        final(comp).wf(),
        size <= 5 + raw@.len(),
        final(body)@.len() == old(body)@.len() + size,
        final(body)@.subrange(0, old(body)@.len() as int) == old(body)@,
        forall|t: Seq<u8>|
            #[trigger] parse_plane(
                final(body)@.skip(old(body)@.len() as int) + t,
                old(comp).window(),
                old(comp).write_pos(),
                raw@.len() as int,
            ) == Ok::<(Seq<u8>, Seq<u8>, Seq<u8>, int), TlgError>(
                (raw@, t, final(comp).window(), final(comp).write_pos()),
            ),
        (final(body)@.skip(old(body)@.len() as int), final(comp).lz_state()) == plane_record(old(comp).lz_state(), raw@),
{
    let ghost st0 = comp.lz_state();
    let ghost w0 = comp.window();
    let ghost s0 = comp.write_pos();
    let ghost b0 = body@;
    comp.store();
    let compressed = comp.encode(raw.as_slice());
    let flag: u8;
    if compressed.len() < raw.len() {
        flag = 0;
        body.push(0u8);
        push_u32_le(body, compressed.len() as u32);
        body.extend_from_slice(compressed.as_slice());
        proof {
            assert forall|k: int| b0.len() + 5 <= k < body@.len() implies body@[k] == compressed@[k - b0.len() - 5] by {
                assert(cloned(compressed@[k - b0.len() - 5], body@[k]));
            }
            assert(body@.skip(b0.len() as int) =~= plane_bytes(0u8, compressed@));
            assert forall|t: Seq<u8>| #[trigger] parse_plane(
                body@.skip(b0.len() as int) + t,
                w0,
                s0,
                raw@.len() as int,
            ) == Ok::<(Seq<u8>, Seq<u8>, Seq<u8>, int), TlgError>(
                (raw@, t, comp.window(), comp.write_pos()),
            ) by {
                lemma_parse_plane_bytes(0u8, compressed@, t);
            }
            assert(body@.subrange(0, b0.len() as int) =~= b0);
            assert(compressed@ == lz_code(st0, raw@));
            assert(comp.lz_state() == lz_after(st0, raw@));
        }
        5 + compressed.len()
    } else {
        comp.restore();
        flag = 1;
        body.push(1u8);
        push_u32_le(body, raw.len() as u32);
        body.extend_from_slice(raw.as_slice());
        proof {
            assert forall|k: int| b0.len() + 5 <= k < body@.len() implies body@[k] == raw@[k - b0.len() - 5] by {
                assert(cloned(raw@[k - b0.len() - 5], body@[k]));
            }
            assert(body@.skip(b0.len() as int) =~= plane_bytes(1u8, raw@));
            assert forall|t: Seq<u8>| #[trigger] parse_plane(
                body@.skip(b0.len() as int) + t,
                w0,
                s0,
                raw@.len() as int,
            ) == Ok::<(Seq<u8>, Seq<u8>, Seq<u8>, int), TlgError>(
                (raw@, t, comp.window(), comp.write_pos()),
            ) by {
                lemma_parse_plane_bytes(1u8, raw@, t);
            }
            assert(body@.subrange(0, b0.len() as int) =~= b0);
            assert(comp.lz_state() == st0);
        }
        5 + raw.len()
    }
}

/// The block sizes as integers.
pub open spec fn sizes_as_int(sizes: Seq<u32>) -> Seq<int> {
    Seq::new(sizes.len(), |k: int| sizes[k] as int)
}

/// Blocks read only the sizes of the blocks they read.
proof fn lemma_blocks_sizes_prefix(
    rest: Seq<u8>,
    w: Seq<u8>,
    s: int,
    s1: Seq<int>,
    s2: Seq<int>,
    width: int,
    height: int,
    colors: nat,
    n: nat,
)
    requires
        n <= s1.len(),
        n <= s2.len(),
        forall|k: int| 0 <= k < n ==> s1[k] == s2[k],
    ensures
        parse_blocks(rest, w, s, s1, width, height, colors, n) == parse_blocks(rest, w, s, s2, width, height, colors, n),
    decreases n,
{
    if n > 0 {
        lemma_blocks_sizes_prefix(rest, w, s, s1, s2, width, height, colors, (n - 1) as nat);
    }
}

/// The header fields of a TLG5 stream.
pub open spec fn header_ok(o: Seq<u8>, layout: PixelLayout, width: u32, height: u32, sizes: Seq<u32>) -> bool {
    &&& o.len() >= 24 + 4 * sizes.len()
    &&& o.take(11) == tlg5_magic()
    &&& o[11] == spec_colors(layout) as u8
    &&& le_u32_at(o, 12) == width
    &&& le_u32_at(o, 16) == height
    &&& le_u32_at(o, 20) == 4
    &&& forall|j: int| 0 <= j < sizes.len() ==> #[trigger] le_u32_at(o, 24 + 4 * j) == sizes[j]
}

proof fn lemma_header_prefix(h: Seq<u8>, o: Seq<u8>, layout: PixelLayout, width: u32, height: u32, sizes: Seq<u32>)
    requires
        header_ok(h, layout, width, height, sizes),
        o.len() >= h.len(),
        o.subrange(0, h.len() as int) == h,
        sizes.len() == block_count(height as int),
        width * spec_colors(layout) <= usize::MAX,
        width * height * spec_colors(layout) <= usize::MAX,
    ensures
        header_ok(o, layout, width, height, sizes),
        tlg5_header(o) == Ok::<(PixelLayout, int, int), TlgError>((layout, width as int, height as int)),
        tlg5_block_sizes(o, height as int) == sizes_as_int(sizes),
{
    assert forall|i: int| 0 <= i < h.len() implies o[i] == h[i] by {
        assert(o.subrange(0, h.len() as int)[i] == o[i]);
    }
    assert(o.take(11) =~= h.take(11));
    assert forall|j: int| 0 <= j < sizes.len() implies #[trigger] le_u32_at(o, 24 + 4 * j) == sizes[j] by {
        assert(le_u32_at(h, 24 + 4 * j) == sizes[j]);
    }
    assert(le_u32_at(o, 12) == le_u32_at(h, 12));
    assert(le_u32_at(o, 16) == le_u32_at(h, 16));
    assert(le_u32_at(o, 20) == le_u32_at(h, 20));
    assert(layout_of_colors(o[11]) == Some(layout));
    assert(width * spec_colors(layout) * height == width * height * spec_colors(layout)) by (nonlinear_arith);
    assert(tlg5_block_sizes(o, height as int) =~= sizes_as_int(sizes));
}

proof fn lemma_push_le(o0: Seq<u8>, o1: Seq<u8>, v: u32)
    requires
        o1 == o0 + le_bytes(v),
    ensures
        le_u32_at(o1, o0.len() as int) == v,
        forall|i: int| 0 <= i < o0.len() ==> o1[i] == o0[i],
        o1.len() == o0.len() + 4,
{
    lemma_le_bytes_value(v);
    let n = o0.len() as int;
    let lb = le_bytes(v);
    assert(o1[n] == lb[0] && o1[n + 1] == lb[1] && o1[n + 2] == lb[2] && o1[n + 3] == lb[3]);
}

/// The header and block table of a TLG5 stream.
fn write_header(layout: PixelLayout, width: u32, height: u32, sizes: &Vec<u32>) -> (out: Vec<u8>)
    ensures
        out@.len() == 24 + 4 * sizes@.len(),
        header_ok(out@, layout, width, height, sizes@),
        out@ == tlg5_magic() + seq![spec_colors(layout) as u8] + le_bytes(width) + le_bytes(height) + le_bytes(4u32)
            + sizes_bytes(sizes_as_int(sizes@)),
{
    let colors = layout.colors();
    let mut out: Vec<u8> = Vec::new();
    out.push(84u8);
    out.push(76u8);
    out.push(71u8);
    out.push(53u8);
    out.push(46u8);
    out.push(48u8);
    out.push(0u8);
    out.push(114u8);
    out.push(97u8);
    out.push(119u8);
    out.push(26u8);
    out.push(colors as u8);
    let ghost h0 = out@;
    push_u32_le(&mut out, width);
    let ghost h1 = out@;
    push_u32_le(&mut out, height);
    let ghost h2 = out@;
    push_u32_le(&mut out, 4u32);
    let ghost h3 = out@;
    proof {
        lemma_push_le(h0, h1, width);
        lemma_push_le(h1, h2, height);
        lemma_push_le(h2, h3, 4u32);
        assert(h3.take(11) =~= tlg5_magic());
        assert(le_u32_at(h3, 12) == le_u32_at(h1, 12));
        assert(le_u32_at(h3, 16) == le_u32_at(h2, 16));
        assert(h3 =~= tlg5_magic() + seq![spec_colors(layout) as u8] + le_bytes(width) + le_bytes(height) + le_bytes(4u32));
        assert(sizes_as_int(sizes@).take(0) =~= Seq::<int>::empty());
        assert(h3 =~= h3 + sizes_bytes(sizes_as_int(sizes@).take(0)));
    }
    let mut k: usize = 0;
    while k < sizes.len()
        invariant
            k <= sizes@.len(),
            out@.len() == 24 + 4 * k,
            out@.take(11) == tlg5_magic(),
            out@[11] == colors as u8,
            colors == spec_colors(layout),
            le_u32_at(out@, 12) == width,
            le_u32_at(out@, 16) == height,
            le_u32_at(out@, 20) == 4,
            forall|j: int| 0 <= j < k ==> #[trigger] le_u32_at(out@, 24 + 4 * j) == sizes@[j],
            out@ == h3 + sizes_bytes(sizes_as_int(sizes@).take(k as int)),
            h3 == tlg5_magic() + seq![spec_colors(layout) as u8] + le_bytes(width) + le_bytes(height) + le_bytes(4u32),
        decreases sizes@.len() - k,
    {
        let ghost o0 = out@;
        push_u32_le(&mut out, sizes[k]);
        proof {
            lemma_push_le(o0, out@, sizes@[k as int]);
            assert forall|j: int| 0 <= j < k + 1 implies #[trigger] le_u32_at(out@, 24 + 4 * j) == sizes@[j] by {
                if j < k {
                    assert(le_u32_at(out@, 24 + 4 * j) == le_u32_at(o0, 24 + 4 * j));
                }
            }
            assert(out@.take(11) =~= o0.take(11));
            assert(le_u32_at(out@, 12) == le_u32_at(o0, 12));
            assert(le_u32_at(out@, 16) == le_u32_at(o0, 16));
            assert(le_u32_at(out@, 20) == le_u32_at(o0, 20));
            let sk = sizes_as_int(sizes@).take(k + 1);
            assert(sk.drop_last() =~= sizes_as_int(sizes@).take(k as int));
            assert(sk.last() == sizes@[k as int] as int);
            assert(out@ =~= h3 + sizes_bytes(sk));
        }
        k = k + 1;
    }
    assert(sizes_as_int(sizes@).take(k as int) =~= sizes_as_int(sizes@));
    out
}

impl Tlg5Encoder {
    /// The raw pixels.
    pub closed spec fn pixels(&self) -> Seq<u8> {
        self.data@
    }

    /// The width in pixels.
    pub closed spec fn spec_width(&self) -> u32 {
        self.width
    }

    /// The height in pixels.
    pub closed spec fn spec_height(&self) -> u32 {
        self.height
    }

    /// The pixel layout.
    pub closed spec fn spec_layout(&self) -> PixelLayout {
        self.pixel
    }

    /// The plane values of pixel `(x, y)`, whose first channel is at `idx`,
    /// and its vertical differences, given those of the pixel to its left.
    #[verifier::rlimit(50)]
    fn encode_pixel(&self, y: usize, x: usize, idx: usize, prev: (u8, u8, u8, u8)) -> (r: ((u8, u8, u8, u8), (u8, u8, u8, u8)))
        requires
            self.data@.len() >= self.width * self.height * spec_colors(self.pixel),
            self.width * self.height * spec_colors(self.pixel) <= usize::MAX,
            self.width * spec_colors(self.pixel) <= usize::MAX,
            y < self.height,
            x < self.width,
            idx == y * (self.width * spec_colors(self.pixel)) + x * spec_colors(self.pixel),
            forall|c: int| 0 <= c < spec_colors(self.pixel) ==> #[trigger] at4(prev, c) as int == (if x == 0 {
                0
            } else {
                enc_cl(self.data@, self.width as int, spec_colors(self.pixel) as int, y as int, x - 1, c)
            }),
        ensures
            forall|c: int| 0 <= c < spec_colors(self.pixel) ==> #[trigger] at4(r.0, c) as int == enc_cl(
                self.data@,
                self.width as int,
                spec_colors(self.pixel) as int,
                y as int,
                x as int,
                c,
            ),
            forall|c: int| 0 <= c < spec_colors(self.pixel) ==> #[trigger] at4(r.1, c) == enc_plane_val(
                self.data@,
                self.width as int,
                self.pixel,
                y as int,
                x as int,
                c,
            ),
    {
        let ghost data = self.data@;
        let layout = self.pixel;
        let colors = layout.colors();
        let width = self.width as usize;
        let stride = width * colors;
        let has_up = y > 0;
        proof {
            lemma_pixel_bounds(self.width as int, self.height as int, colors as int, y as int, x as int, idx as int);
            assert(at4(prev, 0) as int == prev.0);
            assert(at4(prev, 1) as int == prev.1);
            assert(at4(prev, 2) as int == prev.2);
            assert(at4(prev, 3) as int == prev.3);
        }
        let r0 = second_diff(&self.data, idx, stride, has_up, prev.0);
        proof {
            lemma_diff_step(data, width as int, colors as int, y as int, x as int, 0, idx as int, stride as int, prev.0, r0);
            lemma_enc_ranges(data, width as int, colors as int, y as int, x as int, 0);
        }
        match layout {
            PixelLayout::Gray => {
                let r = ((r0.0, 0u8, 0u8, 0u8), (r0.1, 0u8, 0u8, 0u8));
                proof {
                    assert forall|c: int| 0 <= c < colors implies #[trigger] at4(r.0, c) as int == enc_cl(data, width as int, colors as int, y as int, x as int, c)
                        && at4(r.1, c) == enc_plane_val(data, width as int, layout, y as int, x as int, c) by {
                        assert(c == 0);
                    }
                }
                r
            },
            _ => {
                let r1 = second_diff(&self.data, idx + 1, stride, has_up, prev.1);
                let r2 = second_diff(&self.data, idx + 2, stride, has_up, prev.2);
                proof {
                    lemma_diff_step(data, width as int, colors as int, y as int, x as int, 1, idx + 1, stride as int, prev.1, r1);
                    lemma_diff_step(data, width as int, colors as int, y as int, x as int, 2, idx + 2, stride as int, prev.2, r2);
                }
                let mut c3: (u8, u8) = (0, 0);
                if colors == 4 {
                    c3 = second_diff(&self.data, idx + 3, stride, has_up, prev.3);
                    proof {
                        lemma_diff_step(data, width as int, colors as int, y as int, x as int, 3, idx + 3, stride as int, prev.3, c3);
                    }
                }
                let g0 = r2.1.wrapping_sub(r1.1);
                let g2 = r0.1.wrapping_sub(r1.1);
                let r = ((r0.0, r1.0, r2.0, c3.0), (g0, r1.1, g2, c3.1));
                proof {
                    lemma_color_planes(data, width as int, layout, y as int, x as int, r);
                }
                r
            },
        }
    }

    /// An encoder for a gray image (one byte per pixel).
    pub fn from_gray(data: Vec<u8>, width: u32, height: u32) -> (e: Tlg5Encoder)
        ensures
            e.pixels() == data@,
            e.spec_width() == width,
            e.spec_height() == height,
            e.spec_layout() == PixelLayout::Gray,
    {
        Tlg5Encoder { data, width, height, pixel: PixelLayout::Gray }
    }

    /// An encoder for an RGB image (three bytes per pixel).
    pub fn from_rgb(data: Vec<u8>, width: u32, height: u32) -> (e: Tlg5Encoder)
        ensures
            e.pixels() == data@,
            e.spec_width() == width,
            e.spec_height() == height,
            e.spec_layout() == PixelLayout::Rgb,
    {
        Tlg5Encoder { data, width, height, pixel: PixelLayout::Rgb }
    }

    /// An encoder for an RGBA image (four bytes per pixel).
    pub fn from_rgba(data: Vec<u8>, width: u32, height: u32) -> (e: Tlg5Encoder)
        ensures
            e.pixels() == data@,
            e.spec_width() == width,
            e.spec_height() == height,
            e.spec_layout() == PixelLayout::Rgba,
    {
        Tlg5Encoder { data, width, height, pixel: PixelLayout::Rgba }
    }

    /// An encoder for raw pixels in the given layout.
    pub fn from_raw(data: Vec<u8>, pixel_layout: PixelLayout, width: u32, height: u32) -> (e: Tlg5Encoder)
        ensures
            e.pixels() == data@,
            e.spec_width() == width,
            e.spec_height() == height,
            e.spec_layout() == pixel_layout,
    {
        match pixel_layout {
            PixelLayout::Gray => Tlg5Encoder::from_gray(data, width, height),
            PixelLayout::Rgb => Tlg5Encoder::from_rgb(data, width, height),
            PixelLayout::Rgba => Tlg5Encoder::from_rgba(data, width, height),
        }
    }

    /// The width in pixels.
    pub fn width(&self) -> (w: u32)
        ensures
            w == self.spec_width(),
    {
        self.width
    }

    /// The height in pixels.
    pub fn height(&self) -> (h: u32)
        ensures
            h == self.spec_height(),
    {
        self.height
    }

    /// The pixel layout.
    pub fn pixel_layout(&self) -> (l: PixelLayout)
        ensures
            l == self.spec_layout(),
    {
        self.pixel
    }

    /// The number of raw pixel bytes held.
    pub fn data_len(&self) -> (n: usize)
        ensures
            n == self.pixels().len(),
    {
        self.data.len()
    }

    /// Planes `0..colors` of block `b`.
    #[verifier::rlimit(100)]
    fn block_planes(&self, b: usize) -> (planes: Vec<Vec<u8>>)
        requires
            self.data@.len() >= self.width * self.height * spec_colors(self.pixel),
            self.width * spec_colors(self.pixel) <= usize::MAX,
            self.width * self.height * spec_colors(self.pixel) <= usize::MAX,
            4 * b < self.height,
        ensures
            planes@.len() == spec_colors(self.pixel),
            forall|c: int|
                0 <= c < spec_colors(self.pixel) ==> (#[trigger] planes@[c])@ == enc_plane(
                    self.data@,
                    self.width as int,
                    self.height as int,
                    self.pixel,
                    b as int,
                    c,
                ),
    {
        let layout = self.pixel;
        let colors = layout.colors();
        let width = self.width as usize;
        let height = self.height as usize;
        let ghost data = self.data@;
        let ghost rows = block_rows(height as int, b as int);
        let stride = width * colors;
        let y_start = b * 4;
        let y_end = if height - y_start > 4 {
            y_start + 4
        } else {
            height
        };
        assert(y_end == y_start + rows);
        assert(y_end * stride <= width * height * colors) by (nonlinear_arith)
            requires
                y_end <= height,
                stride == width * colors,
        ;
        let mut p0: Vec<u8> = Vec::new();
        let mut p1: Vec<u8> = Vec::new();
        let mut p2: Vec<u8> = Vec::new();
        let mut p3: Vec<u8> = Vec::new();
        let ghost pl = |c: int, k: nat| Seq::new(k, |k2: int| enc_plane_val(data, width as int, layout, 4 * b + k2 / width as int, k2 % width as int, c));
        let mut y = y_start;
        assert(y_start * stride <= y_end * stride) by (nonlinear_arith)
            requires
                y_start <= y_end,
                stride >= 0,
        ;
        let mut idx: usize = y_start * stride;
        proof {
            assert((y - y_start) * width == 0);
            assert(p0@ =~= pl(0, 0));
            assert(p1@ =~= pl(1, 0));
            assert(p2@ =~= pl(2, 0));
            assert(p3@ =~= pl(3, 0));
        }
        while y < y_end
            invariant
                data == self.data@,
                layout == self.pixel,
                colors == spec_colors(layout),
                width == self.width,
                height == self.height,
                stride == width * colors,
                data.len() >= width * height * colors,
                width * height * colors <= usize::MAX,
                y_start == 4 * b,
                y_end == y_start + rows,
                rows <= 4,
                y_start <= y <= y_end,
                y_end <= height,
                y_end * stride <= width * height * colors,
                idx == y * stride,
                pl == (|c: int, k: nat| Seq::new(k, |k2: int| enc_plane_val(data, width as int, layout, 4 * b + k2 / width as int, k2 % width as int, c))),
                p0@ == pl(0, ((y - y_start) * width) as nat),
                colors >= 3 ==> p1@ == pl(1, ((y - y_start) * width) as nat),
                colors >= 3 ==> p2@ == pl(2, ((y - y_start) * width) as nat),
                colors == 4 ==> p3@ == pl(3, ((y - y_start) * width) as nat),
            decreases y_end - y,
        {
            let mut x: usize = 0;
            let mut prev: (u8, u8, u8, u8) = (0, 0, 0, 0);
            proof {
                assert((y + 1) * stride <= y_end * stride) by (nonlinear_arith)
                    requires
                        y < y_end,
                        stride >= 0,
                ;
            }
            while x < width
                invariant
                    data == self.data@,
                    layout == self.pixel,
                    colors == spec_colors(layout),
                    width == self.width,
                    height == self.height,
                    stride == width * colors,
                    data.len() >= width * height * colors,
                    y_start == 4 * b,
                    y_start <= y < y_end,
                    y_end <= height,
                    (y + 1) * stride <= width * height * colors,
                    width * height * colors <= usize::MAX,
                    0 <= x <= width,
                    idx == y * stride + x * colors,
                    pl == (|c: int, k: nat| Seq::new(k, |k2: int| enc_plane_val(data, width as int, layout, 4 * b + k2 / width as int, k2 % width as int, c))),
                    forall|c: int| 0 <= c < colors ==> #[trigger] at4(prev, c) as int == (if x == 0 { 0 } else { enc_cl(data, width as int, colors as int, y as int, x - 1, c) }),
                    p0@ == pl(0, ((y - y_start) * width + x) as nat),
                    colors >= 3 ==> p1@ == pl(1, ((y - y_start) * width + x) as nat),
                    colors >= 3 ==> p2@ == pl(2, ((y - y_start) * width + x) as nat),
                    colors == 4 ==> p3@ == pl(3, ((y - y_start) * width + x) as nat),
                decreases width - x,
            {
                let ghost k = ((y - y_start) * width + x) as int;
                proof {
                    vstd::arithmetic::div_mod::lemma_fundamental_div_mod_converse(k, width as int, (y - y_start) as int, x as int);
                    lemma_pixel_bounds(width as int, height as int, colors as int, y as int, x as int, idx as int);
                }
                let (next, v) = self.encode_pixel(y, x, idx, prev);
                prev = next;
                p0.push(v.0);
                proof {
                    assert(4 * b + k / width as int == y && k % width as int == x);
                    assert(at4(v, 0) == v.0);
                    assert(at4(v, 1) == v.1);
                    assert(at4(v, 2) == v.2);
                    assert(at4(v, 3) == v.3);
                    assert(p0@ =~= pl(0, (k + 1) as nat));
                }
                if colors >= 3 {
                    p1.push(v.1);
                    p2.push(v.2);
                    proof {
                        assert(p1@ =~= pl(1, (k + 1) as nat));
                        assert(p2@ =~= pl(2, (k + 1) as nat));
                    }
                    if colors == 4 {
                        p3.push(v.3);
                        proof {
                            assert(p3@ =~= pl(3, (k + 1) as nat));
                        }
                    }
                }
                idx = idx + colors;
                x = x + 1;
                proof {
                    assert(idx == y * stride + x * colors) by (nonlinear_arith)
                        requires
                            idx == y * stride + (x - 1) * colors + colors,
                    ;
                }
            }
            y = y + 1;
            proof {
                assert(idx == y * stride) by (nonlinear_arith)
                    requires
                        idx == (y - 1) * stride + width * colors,
                        stride == width * colors,
                ;
                assert((y - y_start) * width == (y - 1 - y_start) * width + width) by (nonlinear_arith);
            }
        }
        let mut planes: Vec<Vec<u8>> = Vec::new();
        proof {
            assert(rows * width == width * rows) by (nonlinear_arith);
            assert(pl(0, (rows * width) as nat) =~= enc_plane(data, width as int, height as int, layout, b as int, 0));
            assert(pl(1, (rows * width) as nat) =~= enc_plane(data, width as int, height as int, layout, b as int, 1));
            assert(pl(2, (rows * width) as nat) =~= enc_plane(data, width as int, height as int, layout, b as int, 2));
            assert(pl(3, (rows * width) as nat) =~= enc_plane(data, width as int, height as int, layout, b as int, 3));
        }
        planes.push(p0);
        if colors >= 3 {
            planes.push(p1);
            planes.push(p2);
            if colors == 4 {
                planes.push(p3);
            }
        }
        planes
    }

    /// The planes of the first `n` blocks.
    spec fn planes_upto(&self, n: int) -> Seq<Seq<Seq<u8>>> {
        Seq::new(
            n as nat,
            |b: int| Seq::new(spec_colors(self.pixel), |c: int| enc_plane(self.data@, self.width as int, self.height as int, self.pixel, b, c)),
        )
    }

    /// Compresses the blocks; returns the block bytes and the block sizes.
    #[verifier::rlimit(100)]
    fn encode_blocks(&self) -> (r: (Vec<u8>, Vec<u32>))
        requires
            self.data@.len() >= self.width * self.height * spec_colors(self.pixel),
            self.width * spec_colors(self.pixel) <= usize::MAX,
            self.width * self.height * spec_colors(self.pixel) <= usize::MAX,
            spec_colors(self.pixel) * (5 + self.width * max_block_rows(self.height as int)) <= u32::MAX,
        ensures
            r.1@.len() == block_count(self.height as int),
            forall|t: Seq<u8>|
                #[trigger] parse_blocks(
                    r.0@ + t,
                    initial_window(),
                    0,
                    sizes_as_int(r.1@),
                    self.width as int,
                    self.height as int,
                    spec_colors(self.pixel),
                    block_count(self.height as int) as nat,
                ) matches Ok((ps, rest, _w, _s)) && ps == self.planes_upto(block_count(self.height as int)) && rest == t,
            r.0@ == block_records(
                self.data@,
                self.width as int,
                self.height as int,
                self.pixel,
                block_count(self.height as int) as nat,
            ).0,
            sizes_as_int(r.1@) == block_records(
                self.data@,
                self.width as int,
                self.height as int,
                self.pixel,
                block_count(self.height as int) as nat,
            ).1,
    {
        let layout = self.pixel;
        let colors = layout.colors();
        let width = self.width as usize;
        let height = self.height as usize;
        let bc = height / 4 + if height % 4 != 0 {
            1
        } else {
            0
        };
        assert(bc == block_count(height as int));
        let ghost pm = width * max_block_rows(height as int);
        let mut comp = SlideCompressor::new();
        let mut body: Vec<u8> = Vec::new();
        let mut sizes: Vec<u32> = Vec::new();
        let mut b: usize = 0;
        proof {
            assert forall|t: Seq<u8>| #[trigger] parse_blocks(
                body@ + t,
                initial_window(),
                0,
                sizes_as_int(sizes@),
                width as int,
                height as int,
                colors as nat,
                0,
            ) == Ok::<(Seq<Seq<Seq<u8>>>, Seq<u8>, Seq<u8>, int), TlgError>(
                (self.planes_upto(0), t, comp.window(), comp.write_pos()),
            ) by {
                assert(body@ + t =~= t);
                assert(self.planes_upto(0) =~= Seq::<Seq<Seq<u8>>>::empty());
            }
            assert(sizes_as_int(sizes@) =~= Seq::<int>::empty());
        }
        while b < bc
            invariant
                b <= bc,
                bc == block_count(height as int),
                layout == self.pixel,
                colors == spec_colors(layout),
                width == self.width,
                height == self.height,
                self.data@.len() >= width * height * colors,
                width * colors <= usize::MAX,
                width * height * colors <= usize::MAX,
                colors * (5 + pm) <= u32::MAX,
                pm == width * max_block_rows(height as int),
                comp.wf(),
                sizes@.len() == b,
                forall|t: Seq<u8>| #[trigger] parse_blocks(
                    body@ + t,
                    initial_window(),
                    0,
                    sizes_as_int(sizes@),
                    width as int,
                    height as int,
                    colors as nat,
                    b as nat,
                ) == Ok::<(Seq<Seq<Seq<u8>>>, Seq<u8>, Seq<u8>, int), TlgError>(
                    (self.planes_upto(b as int), t, comp.window(), comp.write_pos()),
                ),
                body@ == block_records(self.data@, width as int, height as int, layout, b as nat).0,
                sizes_as_int(sizes@) == block_records(self.data@, width as int, height as int, layout, b as nat).1,
                comp.lz_state() == block_records(self.data@, width as int, height as int, layout, b as nat).2,
            decreases bc - b,
        {
            let planes = self.block_planes(b);
            let ghost stb = comp.lz_state();
            let ghost bp = block_planes_of(self.data@, width as int, height as int, layout, b as int);
            let ghost rows = block_rows(height as int, b as int);
            let ghost plane_len = width * rows;
            let ghost wb = comp.window();
            let ghost sb = comp.write_pos();
            let ghost body0 = body@;
            let block_start = body.len();
            let mut block_size: usize = 0;
            let mut c: usize = 0;
            proof {
                assert(rows <= max_block_rows(height as int));
                assert(width * rows <= pm) by (nonlinear_arith)
                    requires
                        rows <= max_block_rows(height as int),
                        pm == width * max_block_rows(height as int),
                ;
                assert forall|t: Seq<u8>| #[trigger] parse_planes(
                    body@.skip(block_start as int) + t,
                    wb,
                    sb,
                    plane_len,
                    0,
                ) == Ok::<(Seq<Seq<u8>>, Seq<u8>, Seq<u8>, int), TlgError>(
                    (Seq::<Seq<u8>>::empty(), t, comp.window(), comp.write_pos()),
                ) by {
                    assert(body@.skip(block_start as int) + t =~= t);
                }
                assert(Seq::new(0nat, |c2: int| planes@[c2]@) =~= Seq::<Seq<u8>>::empty());
                assert(bp.take(0) =~= Seq::<Seq<u8>>::empty());
                assert(body@.skip(block_start as int) =~= Seq::<u8>::empty());
            }
            while c < colors
                invariant
                    c <= colors,
                    colors == spec_colors(layout),
                    layout == self.pixel,
                    comp.wf(),
                    planes@.len() == colors,
                    forall|c2: int| 0 <= c2 < colors ==> (#[trigger] planes@[c2])@ == enc_plane(self.data@, width as int, height as int, layout, b as int, c2),
                    plane_len == width * rows,
                    rows == block_rows(height as int, b as int),
                    rows >= 0,
                    width == self.width,
                    height == self.height,
                    plane_len <= pm,
                    colors * (5 + pm) <= u32::MAX,
                    block_start == body0.len(),
                    body@.len() >= block_start,
                    body@.subrange(0, block_start as int) == body0,
                    block_size == body@.len() - block_start,
                    block_size <= c * (5 + pm),
                    forall|t: Seq<u8>| #[trigger] parse_planes(
                        body@.skip(block_start as int) + t,
                        wb,
                        sb,
                        plane_len,
                        c as nat,
                    ) == Ok::<(Seq<Seq<u8>>, Seq<u8>, Seq<u8>, int), TlgError>(
                        (Seq::new(c as nat, |c2: int| planes@[c2]@), t, comp.window(), comp.write_pos()),
                    ),
                    bp == block_planes_of(self.data@, width as int, height as int, layout, b as int),
                    body@.skip(block_start as int) == plane_records(stb, bp.take(c as int)).0,
                    comp.lz_state() == plane_records(stb, bp.take(c as int)).1,
                decreases colors - c,
            {
                let ghost wc = comp.window();
                let ghost sc = comp.write_pos();
                let ghost bodyc = body@;
                assert(planes@[c as int]@ == enc_plane(self.data@, width as int, height as int, layout, b as int, c as int));
                assert(planes@[c as int]@.len() == plane_len);
                assert(c * (5 + pm) + (5 + pm) <= colors * (5 + pm)) by (nonlinear_arith)
                    requires
                        c < colors,
                        pm >= 0,
                ;
                let sz_c = write_plane(&mut body, &mut comp, &planes[c]);
                block_size = block_size + sz_c;
                proof {
                    let pb = body@.skip(bodyc.len() as int);
                    assert forall|t: Seq<u8>| #[trigger] parse_planes(
                        body@.skip(block_start as int) + t,
                        wb,
                        sb,
                        plane_len,
                        (c + 1) as nat,
                    ) == Ok::<(Seq<Seq<u8>>, Seq<u8>, Seq<u8>, int), TlgError>(
                        (Seq::new((c + 1) as nat, |c2: int| planes@[c2]@), t, comp.window(), comp.write_pos()),
                    ) by {
                        assert(body@.skip(block_start as int) + t =~= bodyc.skip(block_start as int) + (pb + t)) by {
                            assert(body@.subrange(0, bodyc.len() as int) == bodyc);
                        }
                        assert(parse_planes(bodyc.skip(block_start as int) + (pb + t), wb, sb, plane_len, c as nat)
                            == Ok::<(Seq<Seq<u8>>, Seq<u8>, Seq<u8>, int), TlgError>(
                            (Seq::new(c as nat, |c2: int| planes@[c2]@), pb + t, wc, sc)));
                        assert(parse_plane(pb + t, wc, sc, plane_len) == Ok::<(Seq<u8>, Seq<u8>, Seq<u8>, int), TlgError>(
                            (planes@[c as int]@, t, comp.window(), comp.write_pos())));
                        assert(Seq::new((c + 1) as nat, |c2: int| planes@[c2]@) =~= Seq::new(c as nat, |c2: int| planes@[c2]@).push(planes@[c as int]@));
                    }
                    assert(body@.subrange(0, block_start as int) =~= body0) by {
                        assert(body@.subrange(0, bodyc.len() as int) == bodyc);
                        assert(bodyc.subrange(0, block_start as int) == body0);
                    }
                    let bt = bp.take(c + 1);
                    assert(bt.drop_last() =~= bp.take(c as int));
                    assert(bt.last() == planes@[c as int]@);
                    assert(body@.skip(block_start as int) =~= bodyc.skip(block_start as int) + pb) by {
                        assert(body@.subrange(0, bodyc.len() as int) == bodyc);
                    }
                    assert(block_size <= (c + 1) * (5 + pm)) by (nonlinear_arith)
                        requires
                            block_size <= c * (5 + pm) + 5 + pm,
                    ;
                }
                c = c + 1;
            }
            proof {
                assert(block_size <= u32::MAX);
            }
            let ghost sizes0 = sizes@;
            sizes.push(block_size as u32);
            proof {
                let bb = body@.skip(block_start as int);
                let ps = Seq::new(colors as nat, |c2: int| planes@[c2]@);
                assert(ps =~= Seq::new(colors as nat, |c2: int| enc_plane(self.data@, width as int, height as int, layout, b as int, c2)));
                assert(self.planes_upto(b + 1) =~= self.planes_upto(b as int).push(ps));
                assert forall|t: Seq<u8>| #[trigger] parse_blocks(
                    body@ + t,
                    initial_window(),
                    0,
                    sizes_as_int(sizes@),
                    width as int,
                    height as int,
                    colors as nat,
                    (b + 1) as nat,
                ) == Ok::<(Seq<Seq<Seq<u8>>>, Seq<u8>, Seq<u8>, int), TlgError>(
                    (self.planes_upto(b + 1), t, comp.window(), comp.write_pos()),
                ) by {
                    assert(body@ + t =~= body0 + (bb + t));
                    lemma_blocks_sizes_prefix(body0 + (bb + t), initial_window(), 0, sizes_as_int(sizes0), sizes_as_int(sizes@), width as int, height as int, colors as nat, b as nat);
                    assert(parse_blocks(body0 + (bb + t), initial_window(), 0, sizes_as_int(sizes0), width as int, height as int, colors as nat, b as nat)
                        == Ok::<(Seq<Seq<Seq<u8>>>, Seq<u8>, Seq<u8>, int), TlgError>((self.planes_upto(b as int), bb + t, wb, sb)));
                    assert(parse_planes(bb + t, wb, sb, plane_len, colors as nat) == Ok::<(Seq<Seq<u8>>, Seq<u8>, Seq<u8>, int), TlgError>(
                        (ps, t, comp.window(), comp.write_pos())));
                    assert(sizes_as_int(sizes@)[b as int] == block_size);
                }
                assert(bp.take(colors as int) =~= bp);
                assert(body@ =~= body0 + bb);
                assert(sizes_as_int(sizes@) =~= sizes_as_int(sizes0).push(block_size as int));
            }
            b = b + 1;
        }
        (body, sizes)
    }

    /// Encodes the image (see `encode`) and appends the stream to `out`,
    /// leaving the bytes before it as they were.
    pub fn encode_to(&self, out: &mut Vec<u8>) -> (r: Result<(), TlgError>)
        requires
            self.pixels().len() >= self.spec_width() * self.spec_height() * spec_colors(self.spec_layout()),
            self.spec_width() * spec_colors(self.spec_layout()) <= usize::MAX,
            self.spec_width() * self.spec_height() * spec_colors(self.spec_layout()) <= usize::MAX,
            spec_colors(self.spec_layout()) * (5 + self.spec_width() * max_block_rows(self.spec_height() as int)) <= u32::MAX,
        ensures
            r is Ok,
            final(out)@ == old(out)@ + tlg5_stream(self.pixels(), self.spec_width(), self.spec_height(), self.spec_layout()),
    {
        match self.encode() {
            Ok(bytes) => {
                append_slice(out, bytes.as_slice());
                Ok(())
            },
            Err(e) => Err(e),
        }
    }

    /// Encodes the image as a TLG5 stream.
    ///
    /// Always succeeds.  The stream is `tlg5_stream` of the image: each
    /// plane is LZSS-coded where that is strictly shorter, stored otherwise.
    /// It decodes back to the image: `tlg5_decode_spec` of it gives the
    /// pixels and the image's width, height and layout.
    pub fn encode(&self) -> (r: Result<Vec<u8>, TlgError>)
        requires
            self.pixels().len() >= self.spec_width() * self.spec_height() * spec_colors(self.spec_layout()),
            self.spec_width() * spec_colors(self.spec_layout()) <= usize::MAX,
            self.spec_width() * self.spec_height() * spec_colors(self.spec_layout()) <= usize::MAX,
            spec_colors(self.spec_layout()) * (5 + self.spec_width() * max_block_rows(self.spec_height() as int)) <= u32::MAX,
        ensures
            r matches Ok(out) && tlg5_decode_spec(out@) == Ok::<(Seq<u8>, ImageInfo), TlgError>(
                (
                    self.pixels().take(self.spec_width() * self.spec_height() * spec_colors(self.spec_layout())),
                    ImageInfo {
                        width: self.spec_width(),
                        height: self.spec_height(),
                        pixel_layout: self.spec_layout(),
                    },
                ),
            ),
            r matches Ok(out) && out@ == tlg5_stream(self.pixels(), self.spec_width(), self.spec_height(), self.spec_layout()),
            r matches Ok(out) && out@.len() <= 24 + 4 * block_count(self.spec_height() as int) + spec_colors(
                self.spec_layout(),
            ) * (5 * block_count(self.spec_height() as int) + self.spec_width() * self.spec_height()),
    {
        let (body, sizes) = self.encode_blocks();
        let mut out = write_header(self.pixel, self.width, self.height, &sizes);
        let ghost hs = out@;
        out.extend_from_slice(body.as_slice());
        proof {
            let width = self.width as int;
            let height = self.height as int;
            let layout = self.pixel;
            let bc = block_count(height);
            let o = out@;
            assert forall|j: int| hs.len() <= j < o.len() implies o[j] == body@[j - hs.len()] by {
                assert(cloned(body@[j - hs.len()], o[j]));
            }
            assert(o.subrange(0, hs.len() as int) =~= hs);
            assert(o.skip(24 + 4 * bc) =~= body@);
            lemma_header_prefix(hs, o, layout, self.width, self.height, sizes@);
            let t = Seq::<u8>::empty();
            assert(body@ + t =~= body@);
            assert(parse_blocks(body@ + t, initial_window(), 0, sizes_as_int(sizes@), width, height, spec_colors(layout), bc as nat) matches Ok((ps, rest, _w, _s)) && ps == self.planes_upto(bc) && rest == t);
            assert(self.planes_upto(bc) =~= enc_planes(self.data@, width, height, layout));
            lemma_enc_image(self.data@, width, height, layout);
            assert(o =~= hs + body@);
            lemma_tlg5_stream_len(self.data@, self.width, self.height, self.pixel);
        }
        Ok(out)
    }
}

} // verus!
