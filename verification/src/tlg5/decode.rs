use vstd::prelude::*;
use crate::bytes::{le_u32_at, read_u32_le_prefix};
use crate::slide::{initial_window, lz_decode, SlideDecoder};
use crate::tlg_type::{decoded_as, spec_colors, ImageInfo, PixelLayout, TlgError};
use super::{
    block_count, block_rows, layout_of_colors, parse_blocks, parse_plane, parse_planes, t5_image,
    t5_pixel, t5_row_sum, t5_value, tlg5_block_sizes, tlg5_decode_spec, tlg5_header, tlg5_magic,
};

verus! {

/// TLG5 decoder over the bytes of a whole TLG5 stream.
pub struct Tlg5Decoder {
    data: Vec<u8>,
}

/// Whether the first eleven bytes are the TLG5 magic.
pub(crate) fn has_tlg5_magic(data: &[u8]) -> (b: bool)
    requires
        data@.len() >= 11,
    ensures
        b == (data@.take(11) == tlg5_magic()),
{
    let ok = data[0] == 84 && data[1] == 76 && data[2] == 71 && data[3] == 53 && data[4] == 46
        && data[5] == 48 && data[6] == 0 && data[7] == 114 && data[8] == 97 && data[9] == 119
        && data[10] == 26;
    proof {
        if ok {
            assert(data@.take(11) =~= tlg5_magic());
        } else {
            if data@.take(11) == tlg5_magic() {
                assert(data@.take(11)[0] == 84u8);
                assert(data@.take(11)[1] == 76u8);
                assert(data@.take(11)[2] == 71u8);
                assert(data@.take(11)[3] == 53u8);
                assert(data@.take(11)[4] == 46u8);
                assert(data@.take(11)[5] == 48u8);
                assert(data@.take(11)[6] == 0u8);
                assert(data@.take(11)[7] == 114u8);
                assert(data@.take(11)[8] == 97u8);
                assert(data@.take(11)[9] == 119u8);
                assert(data@.take(11)[10] == 26u8);
            }
        }
    }
    ok
}

/// Reads the little-endian `u32` at `pos`.
pub(crate) fn read_u32_at(data: &[u8], pos: usize) -> (r: u32)
    requires
        pos + 4 <= data.len(),
    ensures
        r as int == le_u32_at(data@, pos as int),
{
    let r = read_u32_le_prefix(&data[pos..pos + 4]);
    proof {
        let sub = data@.subrange(pos as int, pos + 4);
        assert(sub[0] == data@[pos as int] && sub[1] == data@[pos + 1] && sub[2] == data@[pos + 2]
            && sub[3] == data@[pos + 3]);
    }
    r
}

/// Reads one plane at `pos`: flag, size and bytes, decompressing them when
/// the flag says so.  Returns the plane and the offset after it.
fn read_plane(data: &[u8], pos: usize, dec: &mut SlideDecoder, plane_len: usize) -> (r: Result<
    (Vec<u8>, usize),
    TlgError,
>)
    requires
        old(dec).wf(),
        pos <= data@.len(),
    ensures
        final(dec).wf(),
        match r {
            Ok((p, np)) => pos <= np <= data@.len() && parse_plane(
                data@.skip(pos as int),
                old(dec).window(),
                old(dec).write_pos(),
                plane_len as int,
            ) == Ok::<(Seq<u8>, Seq<u8>, Seq<u8>, int), TlgError>(
                (p@, data@.skip(np as int), final(dec).window(), final(dec).write_pos()),
            ),
            Err(e) => parse_plane(
                data@.skip(pos as int),
                old(dec).window(),
                old(dec).write_pos(),
                plane_len as int,
            ) == Err::<(Seq<u8>, Seq<u8>, Seq<u8>, int), TlgError>(e),
        },
{
    let ghost rest = data@.skip(pos as int);
    if data.len() - pos < 5 {
        return Err(TlgError::UnexpectedEof);
    }
    let flag = data[pos];
    let size = read_u32_at(data, pos + 1) as usize;
    proof {
        assert(rest[0] == flag);
        assert(le_u32_at(rest, 1) == le_u32_at(data@, pos + 1));
    }
    if data.len() - pos - 5 < size {
        return Err(TlgError::UnexpectedEof);
    }
    let start = pos + 5;
    let end = start + size;
    let chunk = &data[start..end];
    proof {
        assert(chunk@ =~= rest.subrange(5, 5 + size));
        assert(data@.skip(end as int) =~= rest.skip(5 + size));
    }
    if flag == 0 {
        let decoded = dec.decode(chunk);
        if decoded.len() != plane_len {
            return Err(TlgError::PlaneSizeMismatch);
        }
        Ok((decoded, end))
    } else if flag == 1 {
        let mut stored: Vec<u8> = Vec::new();
        stored.extend_from_slice(chunk);
        proof {
            assert forall|k: int| 0 <= k < stored@.len() implies stored@[k] == chunk@[k] by {
                assert(cloned(chunk@[k], stored@[k]));
            }
            assert(stored@ =~= chunk@);
        }
        if stored.len() != plane_len {
            return Err(TlgError::PlaneSizeMismatch);
        }
        Ok((stored, end))
    } else {
        Err(TlgError::InvalidCompressionFlag)
    }
}

/// Index `j` of an image `width` pixels wide with `colors` channels is
/// channel `j % colors` of pixel `((j % (width * colors)) / colors, j / (width * colors))`.
pub proof fn lemma_coords(y: int, x: int, c: int, width: int, colors: int)
    requires
        0 <= y,
        0 <= x < width,
        0 <= c < colors,
    ensures
        ({
            let j = y * (width * colors) + x * colors + c;
            &&& j / (width * colors) == y
            &&& (j % (width * colors)) / colors == x
            &&& j % colors == c
            &&& 0 <= x * colors + c < width * colors
        }),
{
    let j = y * (width * colors) + x * colors + c;
    assert(0 <= x * colors + c < width * colors) by (nonlinear_arith)
        requires
            0 <= x < width,
            0 <= c < colors,
    ;
    vstd::arithmetic::div_mod::lemma_fundamental_div_mod_converse(j, width * colors, y, x * colors + c);
    vstd::arithmetic::div_mod::lemma_fundamental_div_mod_converse(x * colors + c, colors, x, c);
    assert(y * (width * colors) + x * colors + c == (y * width + x) * colors + c) by (nonlinear_arith);
    vstd::arithmetic::div_mod::lemma_fundamental_div_mod_converse(j, colors, y * width + x, c);
}

/// The first `upto` bytes of `out` are those of the decoded image.
pub open spec fn t5_prefix_ok(out: Seq<u8>, planes: Seq<Seq<Seq<u8>>>, width: int, layout: PixelLayout, upto: int) -> bool {
    let colors = spec_colors(layout) as int;
    forall|j: int|
        0 <= j < upto ==> #[trigger] out[j] == t5_pixel(
            planes,
            width,
            layout,
            j / (width * colors),
            (j % (width * colors)) / colors,
            j % colors,
        ) as u8
}

proof fn lemma_prefix_extend(
    out0: Seq<u8>,
    out1: Seq<u8>,
    planes: Seq<Seq<Seq<u8>>>,
    width: int,
    layout: PixelLayout,
    idx: int,
    y: int,
    x: int,
    c: int,
)
    requires
        t5_prefix_ok(out0, planes, width, layout, idx),
        0 <= idx < out0.len(),
        out1 == out0.update(idx, t5_pixel(planes, width, layout, y, x, c) as u8),
        0 <= y,
        0 <= x < width,
        0 <= c < spec_colors(layout),
        idx == y * (width * spec_colors(layout)) + x * spec_colors(layout) + c,
    ensures
        t5_prefix_ok(out1, planes, width, layout, idx + 1),
{
    let colors = spec_colors(layout) as int;
    lemma_coords(y, x, c, width, colors);
    assert forall|j: int| 0 <= j < idx + 1 implies #[trigger] out1[j] == t5_pixel(
        planes,
        width,
        layout,
        j / (width * colors),
        (j % (width * colors)) / colors,
        j % colors,
    ) as u8 by {
        if j < idx {
            assert(out1[j] == out0[j]);
        }
    }
}

/// Decoded pixels of a row depend only on the planes of the blocks up to it.
proof fn lemma_t5_prefix(p1: Seq<Seq<Seq<u8>>>, p2: Seq<Seq<Seq<u8>>>, width: int, layout: PixelLayout, y: int, x: int, c: int)
    requires
        0 <= y,
        y / 4 < p1.len() <= p2.len(),
        forall|b: int| 0 <= b < p1.len() ==> p1[b] == p2[b],
    ensures
        t5_pixel(p1, width, layout, y, x, c) == t5_pixel(p2, width, layout, y, x, c),
    decreases y,
{
    lemma_t5_row_prefix(p1, p2, width, layout, y, x, c);
    if y > 0 {
        lemma_t5_prefix(p1, p2, width, layout, y - 1, x, c);
    }
}

proof fn lemma_t5_row_prefix(p1: Seq<Seq<Seq<u8>>>, p2: Seq<Seq<Seq<u8>>>, width: int, layout: PixelLayout, y: int, x: int, c: int)
    requires
        0 <= y,
        y / 4 < p1.len() <= p2.len(),
        forall|b: int| 0 <= b < p1.len() ==> p1[b] == p2[b],
    ensures
        t5_row_sum(p1, width, layout, y, x, c) == t5_row_sum(p2, width, layout, y, x, c),
    decreases x,
{
    reveal(t5_value);
    assert(p1[y / 4] == p2[y / 4]);
    if x > 0 {
        lemma_t5_row_prefix(p1, p2, width, layout, y, x - 1, c);
    }
}

/// Rebuilds the rows of block `b` into `output`: each channel is the sum of
/// the row's values so far plus the pixel above.
#[verifier::rlimit(50)]
fn reconstruct_block(
    output: &mut Vec<u8>,
    planes: &Vec<Vec<u8>>,
    width: usize,
    height: usize,
    colors: usize,
    layout: PixelLayout,
    b: usize,
    Ghost(all): Ghost<Seq<Seq<Seq<u8>>>>,
)
    requires
        colors == spec_colors(layout),
        width * colors * height <= usize::MAX,
        4 * b < height,
        old(output)@.len() == width * colors * height,
        all.len() == b + 1,
        planes@.len() == colors,
        all[b as int].len() == colors,
        forall|c: int|
            0 <= c < colors ==> (#[trigger] planes@[c])@ == all[b as int][c] && planes@[c]@.len()
                == width * block_rows(height as int, b as int),
        t5_prefix_ok(old(output)@, all, width as int, layout, 4 * b * (width * colors)),
    ensures
        final(output)@.len() == old(output)@.len(),
        t5_prefix_ok(
            final(output)@,
            all,
            width as int,
            layout,
            (4 * b + block_rows(height as int, b as int)) * (width * colors),
        ),
{
    proof {
        assert(width * colors <= width * colors * height) by (nonlinear_arith)
            requires
                height >= 1,
        ;
        assert((4 * b) * (width * colors) <= width * colors * height) by (nonlinear_arith)
            requires
                4 * b < height,
        ;
        assert(width * block_rows(height as int, b as int) <= width * colors * height) by (nonlinear_arith)
            requires
                block_rows(height as int, b as int) <= height,
                colors >= 1,
        ;
    }
    let stride = width * colors;
    let y_start = b * 4;
    let y_end = if height - y_start > 4 {
        y_start + 4
    } else {
        height
    };
    let ghost rows = block_rows(height as int, b as int);
    assert(rows <= 4);
    assert(y_end == y_start + rows);
    assert(y_end * stride <= width * colors * height) by (nonlinear_arith)
        requires
            y_end <= height,
            stride == width * colors,
    ;
    let mut plane_index: usize = 0;
    let mut idx: usize = y_start * stride;
    let mut y = y_start;
    while y < y_end
        invariant
            colors == spec_colors(layout),
            stride == width * colors,
            y_start == 4 * b,
            y_start <= y <= y_end,
            y_end == y_start + rows,
            y_end * stride <= width * colors * height,
            idx == y * stride,
            plane_index == (y - y_start) * width,
            width * rows <= width * colors * height,
            output@.len() == width * colors * height,
            width * colors * height <= usize::MAX,
            rows <= 4,
            all.len() == b + 1,
            planes@.len() == colors,
            all[b as int].len() == colors,
            forall|c: int|
                0 <= c < colors ==> (#[trigger] planes@[c])@ == all[b as int][c] && planes@[c]@.len()
                    == width * rows,
            t5_prefix_ok(output@, all, width as int, layout, idx as int),
        decreases y_end - y,
    {
        let mut prev_cl: Vec<u8> = vec![0u8; 4];
        let mut x: usize = 0;
        assert((y + 1) * stride <= y_end * stride) by (nonlinear_arith)
            requires
                y < y_end,
                stride >= 0,
        ;
        assert((y - y_start + 1) * width <= rows * width) by (nonlinear_arith)
            requires
                y - y_start + 1 <= rows,
                width >= 0,
        ;
        while x < width
            invariant
                colors == spec_colors(layout),
                stride == width * colors,
                y_start == 4 * b,
                y_start <= y < y_end,
                y_end == y_start + rows,
                (y + 1) * stride <= width * colors * height,
                (y - y_start + 1) * width <= rows * width,
                width * rows <= width * colors * height,
                0 <= x <= width,
                idx == y * stride + x * colors,
                plane_index == (y - y_start) * width + x,
                output@.len() == width * colors * height,
            width * colors * height <= usize::MAX,
            rows <= 4,
                prev_cl@.len() == 4,
                forall|c: int|
                    0 <= c < colors ==> #[trigger] prev_cl@[c] == (if x == 0 {
                        0
                    } else {
                        t5_row_sum(all, width as int, layout, y as int, x - 1, c)
                    }),
                all.len() == b + 1,
                planes@.len() == colors,
                all[b as int].len() == colors,
                forall|c: int|
                    0 <= c < colors ==> (#[trigger] planes@[c])@ == all[b as int][c]
                        && planes@[c]@.len() == width * rows,
                t5_prefix_ok(output@, all, width as int, layout, idx as int),
            decreases width - x,
        {
            assert(plane_index < width * rows) by (nonlinear_arith)
                requires
                    plane_index == (y - y_start) * width + x,
                    x < width,
                    (y - y_start + 1) * width <= rows * width,
            ;
            assert(y / 4 == b && (y % 4) * width + x == plane_index) by {
                vstd::arithmetic::div_mod::lemma_fundamental_div_mod_converse(y as int, 4, b as int, y - y_start);
            }
            let mut values: Vec<u8> = vec![0u8; 4];
            match layout {
                PixelLayout::Gray => {
                    values.set(0, planes[0][plane_index]);
                },
                PixelLayout::Rgb => {
                    let g = planes[1][plane_index];
                    values.set(0, planes[2][plane_index].wrapping_add(g));
                    values.set(1, g);
                    values.set(2, planes[0][plane_index].wrapping_add(g));
                },
                PixelLayout::Rgba => {
                    let g = planes[1][plane_index];
                    values.set(0, planes[2][plane_index].wrapping_add(g));
                    values.set(1, g);
                    values.set(2, planes[0][plane_index].wrapping_add(g));
                    values.set(3, planes[3][plane_index]);
                },
            }
            assert forall|c: int| 0 <= c < colors implies #[trigger] values@[c] as int == t5_value(
                all,
                width as int,
                layout,
                y as int,
                x as int,
                c,
            ) by {
                reveal(t5_value);
                assert(planes@[0]@ == all[b as int][0]);
                if colors >= 3 {
                    assert(planes@[1]@ == all[b as int][1]);
                    assert(planes@[2]@ == all[b as int][2]);
                }
                if colors == 4 {
                    assert(planes@[3]@ == all[b as int][3]);
                }
            }
            let mut c: usize = 0;
            assert(x * colors + colors == (x + 1) * colors) by (nonlinear_arith);
            assert((x + 1) * colors + y * stride <= (y + 1) * stride) by (nonlinear_arith)
                requires
                    x < width,
                    stride == width * colors,
                    colors >= 0,
            ;
            while c < colors
                invariant
                    colors == spec_colors(layout),
                    stride == width * colors,
                    y_start <= y < y_end,
                    y_start == 4 * b,
                    (y + 1) * stride <= width * colors * height,
                    (x + 1) * colors + y * stride <= (y + 1) * stride,
                    x * colors + colors == (x + 1) * colors,
                    0 <= x < width,
                    0 <= c <= colors,
                    idx == y * stride + x * colors + c,
                    output@.len() == width * colors * height,
            width * colors * height <= usize::MAX,
            rows <= 4,
                    prev_cl@.len() == 4,
                    values@.len() == 4,
                    forall|c2: int|
                        0 <= c2 < colors ==> #[trigger] values@[c2] as int == t5_value(
                            all,
                            width as int,
                            layout,
                            y as int,
                            x as int,
                            c2,
                        ),
                    forall|c2: int|
                        0 <= c2 < c ==> #[trigger] prev_cl@[c2] == t5_row_sum(
                            all,
                            width as int,
                            layout,
                            y as int,
                            x as int,
                            c2,
                        ),
                    forall|c2: int|
                        c <= c2 < colors ==> #[trigger] prev_cl@[c2] == (if x == 0 {
                            0
                        } else {
                            t5_row_sum(all, width as int, layout, y as int, x - 1, c2)
                        }),
                    t5_prefix_ok(output@, all, width as int, layout, idx as int),
                decreases colors - c,
            {
                let cl = prev_cl[c].wrapping_add(values[c]);
                proof {
                    assert(cl as int == t5_row_sum(all, width as int, layout, y as int, x as int, c as int));
                }
                prev_cl.set(c, cl);
                proof {
                    lemma_coords(y as int, x as int, c as int, width as int, colors as int);
                }
                let upper = if y > 0 {
                    proof {
                        lemma_coords((y - 1) as int, x as int, c as int, width as int, colors as int);
                        assert((y - 1) * stride + x * colors + c == idx - stride) by (nonlinear_arith)
                            requires
                                idx == y * stride + x * colors + c,
                                y >= 1,
                        ;
                        let j = (idx - stride) as int;
                        assert(output@[j] == t5_pixel(all, width as int, layout, j / (width * colors) as int, (j % (width * colors) as int) / colors as int, j % colors as int) as u8);
                    }
                    output[idx - stride]
                } else {
                    0
                };
                let ghost out0 = output@;
                let v = upper.wrapping_add(cl);
                proof {
                    assert(v == t5_pixel(all, width as int, layout, y as int, x as int, c as int) as u8);
                }
                output.set(idx, v);
                proof {
                    lemma_prefix_extend(out0, output@, all, width as int, layout, idx as int, y as int, x as int, c as int);
                }
                idx = idx + 1;
                c = c + 1;
            }
            plane_index = plane_index + 1;
            x = x + 1;
            proof {
                assert(idx == y * stride + x * colors) by (nonlinear_arith)
                    requires
                        idx == y * stride + (x - 1) * colors + colors,
                ;
            }
        }
        y = y + 1;
        proof {
            assert(idx == y * stride) by (nonlinear_arith)
                requires
                    idx == (y - 1) * stride + width * colors,
                    stride == width * colors,
            ;
            assert(plane_index == (y - y_start) * width) by (nonlinear_arith)
                requires
                    plane_index == (y - 1 - y_start) * width + width,
            ;
        }
    }
    proof {
        assert(idx == (4 * b + rows) * (width * colors));
    }
}

proof fn lemma_planes_err(rest: Seq<u8>, w: Seq<u8>, s: int, plane_len: int, k: nat, n: nat, e: TlgError)
    requires
        k <= n,
        parse_planes(rest, w, s, plane_len, k) == Err::<(Seq<Seq<u8>>, Seq<u8>, Seq<u8>, int), TlgError>(e),
    ensures
        parse_planes(rest, w, s, plane_len, n) == Err::<(Seq<Seq<u8>>, Seq<u8>, Seq<u8>, int), TlgError>(e),
    decreases n,
{
    if n > k {
        lemma_planes_err(rest, w, s, plane_len, k, (n - 1) as nat, e);
    }
}

proof fn lemma_blocks_err(
    rest: Seq<u8>,
    w: Seq<u8>,
    s: int,
    sizes: Seq<int>,
    width: int,
    height: int,
    colors: nat,
    k: nat,
    n: nat,
    e: TlgError,
)
    requires
        k <= n,
        parse_blocks(rest, w, s, sizes, width, height, colors, k) == Err::<(Seq<Seq<Seq<u8>>>, Seq<u8>, Seq<u8>, int), TlgError>(e),
    ensures
        parse_blocks(rest, w, s, sizes, width, height, colors, n) == Err::<(Seq<Seq<Seq<u8>>>, Seq<u8>, Seq<u8>, int), TlgError>(e),
    decreases n,
{
    if n > k {
        lemma_blocks_err(rest, w, s, sizes, width, height, colors, k, (n - 1) as nat, e);
    }
}

/// Reads the `colors` planes of one block.
fn read_planes(data: &[u8], pos: usize, dec: &mut SlideDecoder, plane_len: usize, colors: usize) -> (r: Result<
    (Vec<Vec<u8>>, usize),
    TlgError,
>)
    requires
        old(dec).wf(),
        pos <= data@.len(),
    ensures
        final(dec).wf(),
        match r {
            Ok((ps, np)) => pos <= np <= data@.len() && ps@.len() == colors && parse_planes(
                data@.skip(pos as int),
                old(dec).window(),
                old(dec).write_pos(),
                plane_len as int,
                colors as nat,
            ) == Ok::<(Seq<Seq<u8>>, Seq<u8>, Seq<u8>, int), TlgError>(
                (Seq::new(colors as nat, |k: int| ps@[k]@), data@.skip(np as int), final(dec).window(), final(dec).write_pos()),
            ),
            Err(e) => parse_planes(
                data@.skip(pos as int),
                old(dec).window(),
                old(dec).write_pos(),
                plane_len as int,
                colors as nat,
            ) == Err::<(Seq<Seq<u8>>, Seq<u8>, Seq<u8>, int), TlgError>(e),
        },
{
    let ghost restb = data@.skip(pos as int);
    let ghost wb = dec.window();
    let ghost sb = dec.write_pos();
    let mut planes: Vec<Vec<u8>> = Vec::new();
    let mut c: usize = 0;
    let mut p = pos;
    proof {
        assert(Seq::new(0nat, |k: int| planes@[k]@) =~= Seq::<Seq<u8>>::empty());
    }
    while c < colors
        invariant
            c <= colors,
            pos <= p <= data@.len(),
            dec.wf(),
            planes@.len() == c,
            restb == data@.skip(pos as int),
            wb == old(dec).window(),
            sb == old(dec).write_pos(),
            parse_planes(restb, wb, sb, plane_len as int, c as nat) == Ok::<(Seq<Seq<u8>>, Seq<u8>, Seq<u8>, int), TlgError>(
                (Seq::new(c as nat, |k: int| planes@[k]@), data@.skip(p as int), dec.window(), dec.write_pos())),
        decreases colors - c,
    {
        let ghost ps0 = Seq::new(c as nat, |k: int| planes@[k]@);
        match read_plane(data, p, dec, plane_len) {
            Err(e) => {
                proof {
                    assert(parse_planes(restb, wb, sb, plane_len as int, (c + 1) as nat) == Err::<(Seq<Seq<u8>>, Seq<u8>, Seq<u8>, int), TlgError>(e));
                    lemma_planes_err(restb, wb, sb, plane_len as int, (c + 1) as nat, colors as nat, e);
                    assert(wb == old(dec).window());
                    assert(parse_planes(data@.skip(pos as int), old(dec).window(), old(dec).write_pos(), plane_len as int, colors as nat) == Err::<(Seq<Seq<u8>>, Seq<u8>, Seq<u8>, int), TlgError>(e));
                }
                return Err(e);
            },
            Ok((pl, np)) => {
                planes.push(pl);
                p = np;
                proof {
                    let ps1 = Seq::new((c + 1) as nat, |k: int| planes@[k]@);
                    assert(ps1 =~= ps0.push(pl@));
                }
            },
        }
        c = c + 1;
    }
    Ok((planes, p))
}

proof fn lemma_planes_len(rest: Seq<u8>, w: Seq<u8>, s: int, plane_len: int, n: nat)
    requires
        parse_planes(rest, w, s, plane_len, n) is Ok,
    ensures
        ({
            let ps = parse_planes(rest, w, s, plane_len, n).unwrap().0;
            ps.len() == n && forall|k: int| 0 <= k < n ==> (#[trigger] ps[k]).len() == plane_len
        }),
    decreases n,
{
    if n > 0 {
        lemma_planes_len(rest, w, s, plane_len, (n - 1) as nat);
    }
}

/// Reads the header and the block table.
fn read_header(data: &[u8]) -> (r: Result<(PixelLayout, usize, usize, Vec<usize>), TlgError>)
    ensures
        match r {
            Ok((layout, w, h, sizes)) => tlg5_header(data@) == Ok::<(PixelLayout, int, int), TlgError>(
                (layout, w as int, h as int),
            ) && sizes@.len() == block_count(h as int) && forall|k: int|
                0 <= k < sizes@.len() ==> #[trigger] sizes@[k] as int == tlg5_block_sizes(data@, h as int)[k],
            Err(e) => tlg5_header(data@) == Err::<(PixelLayout, int, int), TlgError>(e),
        },
{
    let ghost d = data@;
    if data.len() < 11 {
        return Err(TlgError::UnexpectedEof);
    }
    if !has_tlg5_magic(data) {
        return Err(TlgError::BadMagic);
    }
    if data.len() < 12 {
        return Err(TlgError::UnexpectedEof);
    }
    let colors_byte = data[11];
    let layout = if colors_byte == 1 {
        PixelLayout::Gray
    } else if colors_byte == 3 {
        PixelLayout::Rgb
    } else if colors_byte == 4 {
        PixelLayout::Rgba
    } else {
        return Err(TlgError::UnsupportedColors);
    };
    let colors = colors_byte as usize;
    assert(layout_of_colors(d[11]) == Some(layout));
    assert(colors == spec_colors(layout));
    if data.len() < 24 {
        return Err(TlgError::UnexpectedEof);
    }
    let width = read_u32_at(data, 12) as usize;
    let height = read_u32_at(data, 16) as usize;
    let block_height = read_u32_at(data, 20);
    if block_height != 4 {
        return Err(TlgError::UnsupportedBlockHeight);
    }
    let bc = height / 4 + if height % 4 != 0 {
        1
    } else {
        0
    };
    assert(bc == block_count(height as int));
    if (data.len() - 24) / 4 < bc {
        return Err(TlgError::UnexpectedEof);
    }
    let mut sizes: Vec<usize> = Vec::new();
    let mut n: usize = 0;
    while n < bc
        invariant
            n <= bc,
            bc == block_count(height as int),
            24 + 4 * bc <= data.len(),
            data@ == d,
            sizes@.len() == n,
            forall|k: int| 0 <= k < n ==> #[trigger] sizes@[k] as int == tlg5_block_sizes(d, height as int)[k],
        decreases bc - n,
    {
        let v = read_u32_at(data, 24 + 4 * n);
        sizes.push(v as usize);
        n = n + 1;
    }
    match width.checked_mul(colors) {
        Some(stride) => {
            if stride.checked_mul(height).is_none() {
                return Err(TlgError::ImageTooLarge);
            }
        },
        None => {
            return Err(TlgError::ImageTooLarge);
        },
    }
    Ok((layout, width, height, sizes))
}

/// Decodes the blocks, from offset `24 + 4 * block_count`, into the image.
#[verifier::rlimit(100)]
fn decode_blocks(
    data: &[u8],
    layout: PixelLayout,
    width: usize,
    height: usize,
    sizes: &Vec<usize>,
    Ghost(sizes_spec): Ghost<Seq<int>>,
) -> (r: Result<Vec<u8>, TlgError>)
    requires
        width * spec_colors(layout) * height <= usize::MAX,
        width * spec_colors(layout) <= usize::MAX,
        24 + 4 * block_count(height as int) <= data.len(),
        sizes@.len() == block_count(height as int),
        sizes_spec.len() == block_count(height as int),
        forall|k: int| 0 <= k < sizes@.len() ==> #[trigger] sizes@[k] as int == sizes_spec[k],
    ensures
        match parse_blocks(
            data@.skip(24 + 4 * block_count(height as int)),
            initial_window(),
            0,
            sizes_spec,
            width as int,
            height as int,
            spec_colors(layout),
            block_count(height as int) as nat,
        ) {
            Err(e) => r == Err::<Vec<u8>, TlgError>(e),
            Ok((planes, _r, _w, _s)) => r matches Ok(out) && out@ == t5_image(planes, width as int, height as int, layout),
        },
{
    let colors = layout.colors();
    let bc = sizes.len();
    let stride = width * colors;
    let total = stride * height;
    let mut output: Vec<u8> = vec![0u8; total];
    let mut dec = SlideDecoder::new();
    let mut pos: usize = 24 + 4 * bc;
    let ghost rest0 = data@.skip(24 + 4 * bc);
    let ghost mut all: Seq<Seq<Seq<u8>>> = Seq::empty();
    let mut b: usize = 0;
    proof {
        assert(data@.skip(pos as int) == rest0);
        assert(t5_prefix_ok(output@, all, width as int, layout, 0));
        assert((if 4 * b < height { 4 * b } else { height as int }) == 0);
        assert(0 * (width * colors) == 0);
    }
    while b < bc
        invariant
            b <= bc,
            bc == block_count(height as int),
            colors == spec_colors(layout),
            stride == width * colors,
            total == width * colors * height,
            total <= usize::MAX,
            pos <= data@.len(),
            dec.wf(),
            output@.len() == total,
            sizes@.len() == bc,
            forall|k: int| 0 <= k < bc ==> #[trigger] sizes@[k] as int == sizes_spec[k],
            rest0 == data@.skip(24 + 4 * bc),
            parse_blocks(rest0, initial_window(), 0, sizes_spec, width as int, height as int, colors as nat, b as nat)
                == Ok::<(Seq<Seq<Seq<u8>>>, Seq<u8>, Seq<u8>, int), TlgError>(
                (all, data@.skip(pos as int), dec.window(), dec.write_pos())),
            all.len() == b,
            t5_prefix_ok(output@, all, width as int, layout, (if 4 * b < height { 4 * b } else { height as int }) * (width * colors)),
        decreases bc - b,
    {
        let block_start = pos;
        let rows = if height - 4 * b > 4 {
            4
        } else {
            height - 4 * b
        };
        assert(rows == block_rows(height as int, b as int));
        assert(width * rows <= total) by (nonlinear_arith)
            requires
                rows <= height,
                colors >= 1,
                total == width * colors * height,
        ;
        let plane_len = width * rows;
        let ghost wb = dec.window();
        let ghost sb = dec.write_pos();
        let ghost restb = data@.skip(pos as int);
        let planes = match read_planes(data, pos, &mut dec, plane_len, colors) {
            Err(e) => {
                proof {
                    assert(parse_blocks(rest0, initial_window(), 0, sizes_spec, width as int, height as int, colors as nat, (b + 1) as nat) == Err::<(Seq<Seq<Seq<u8>>>, Seq<u8>, Seq<u8>, int), TlgError>(e));
                    lemma_blocks_err(rest0, initial_window(), 0, sizes_spec, width as int, height as int, colors as nat, (b + 1) as nat, bc as nat, e);
                }
                return Err(e);
            },
            Ok((ps, np)) => {
                pos = np;
                ps
            },
        };
        let ghost ps = Seq::new(colors as nat, |k: int| planes@[k]@);
        proof {
            lemma_planes_len(restb, wb, sb, plane_len as int, colors as nat);
            assert(data@.skip(block_start as int).len() - data@.skip(pos as int).len() == pos - block_start);
        }
        if pos - block_start != sizes[b] {
            proof {
                assert(parse_blocks(rest0, initial_window(), 0, sizes_spec, width as int, height as int, colors as nat, (b + 1) as nat) == Err::<(Seq<Seq<Seq<u8>>>, Seq<u8>, Seq<u8>, int), TlgError>(TlgError::BlockSizeMismatch));
                lemma_blocks_err(rest0, initial_window(), 0, sizes_spec, width as int, height as int, colors as nat, (b + 1) as nat, bc as nat, TlgError::BlockSizeMismatch);
            }
            return Err(TlgError::BlockSizeMismatch);
        }
        let ghost all0 = all;
        proof {
            all = all.push(ps);
            assert(4 * b < height);
            assert forall|j: int| 0 <= j < 4 * b * (width * colors) implies #[trigger] output@[j] == t5_pixel(
                all,
                width as int,
                layout,
                j / (width * colors) as int,
                (j % (width * colors) as int) / colors as int,
                j % colors as int,
            ) as u8 by {
                let y = j / (width * colors) as int;
                assert(y < 4 * b) by (nonlinear_arith)
                    requires
                        0 <= j < 4 * b * (width * colors),
                        y == j / (width * colors) as int,
                ;
                assert(0 <= y) by (nonlinear_arith)
                    requires
                        0 <= j,
                        y == j / (width * colors) as int,
                        width * colors > 0,
                ;
                lemma_t5_prefix(all0, all, width as int, layout, y, (j % (width * colors) as int) / colors as int, j % colors as int);
            }
            assert forall|k: int| 0 <= k < colors implies (#[trigger] planes@[k])@ == all[b as int][k] && planes@[k]@.len() == width * block_rows(height as int, b as int) by {
                assert(ps[k] == planes@[k]@);
            }
        }
        reconstruct_block(&mut output, &planes, width, height, colors, layout, b, Ghost(all));
        b = b + 1;
        proof {
            let rows_i = block_rows(height as int, (b - 1) as int);
            assert(4 * (b - 1) + rows_i == (if 4 * b < height { 4 * b } else { height as int }));
        }
    }
    proof {
        assert(4 * bc >= height);
        assert(height * (width * colors) == total) by (nonlinear_arith)
            requires
                total == width * colors * height,
        ;
        assert(width * height * colors == total) by (nonlinear_arith)
            requires
                total == width * colors * height,
        ;
        assert(output@ =~= t5_image(all, width as int, height as int, layout));
    }
    Ok(output)
}

impl Tlg5Decoder {
    /// The bytes of the stream.
    pub closed spec fn bytes(&self) -> Seq<u8> {
        self.data@
    }

    /// A decoder over the bytes of a TLG5 stream.
    pub fn from_data(data: Vec<u8>) -> (r: Result<Self, TlgError>)
        ensures
            r matches Ok(d) && d.bytes() == data@,
    {
        Ok(Tlg5Decoder { data })
    }

    /// Decodes the stream into raw pixels (`colors` bytes per pixel, rows
    /// top to bottom) and the image description.
    pub fn decode(self) -> (r: Result<(Vec<u8>, ImageInfo), TlgError>)
        ensures
            decoded_as(r, tlg5_decode_spec(self.bytes())),
    {
        let data = self.data.as_slice();
        let (layout, width, height, sizes) = match read_header(data) {
            Ok(h) => h,
            Err(e) => {
                return Err(e);
            },
        };
        let ghost sizes_spec = tlg5_block_sizes(data@, height as int);
        let output = match decode_blocks(data, layout, width, height, &sizes, Ghost(sizes_spec)) {
            Ok(o) => o,
            Err(e) => {
                return Err(e);
            },
        };
        Ok((output, ImageInfo { width: width as u32, height: height as u32, pixel_layout: layout }))
    }
}

} // verus!
