//! TLG5: rows in blocks of four, each channel second-order differenced and
//! compressed with LZSS.

pub mod decode;
pub mod encode;

pub use decode::Tlg5Decoder;
pub use encode::Tlg5Encoder;

use vstd::prelude::*;
use crate::bytes::le_u32_at;
use crate::slide::{initial_window, lz_decode};
use crate::tlg_type::{spec_colors, ImageInfo, PixelLayout, TlgError};

verus! {

/// Rows per block.
pub const BLOCK_HEIGHT: usize = 4;

/// The magic bytes `TLG5.0\0raw\x1a` that open a TLG5 stream.
pub open spec fn tlg5_magic() -> Seq<u8> {
    seq![84u8, 76u8, 71u8, 53u8, 46u8, 48u8, 0u8, 114u8, 97u8, 119u8, 26u8]
}

/// The layout announced by a colour count.
pub open spec fn layout_of_colors(c: u8) -> Option<PixelLayout> {
    if c == 1 {
        Some(PixelLayout::Gray)
    } else if c == 3 {
        Some(PixelLayout::Rgb)
    } else if c == 4 {
        Some(PixelLayout::Rgba)
    } else {
        None
    }
}

/// Number of rows of block `b` of an image `h` rows high.
pub open spec fn block_rows(h: int, b: int) -> int {
    if h - 4 * b < 4 {
        h - 4 * b
    } else {
        4
    }
}

/// The most rows a block of an image `h` rows high has.
pub open spec fn max_block_rows(h: int) -> int {
    if h < 4 {
        h
    } else {
        4
    }
}

/// Number of blocks of an image `h` rows high.
pub open spec fn block_count(h: int) -> int {
    (h + 3) / 4
}

/// One plane of a block: a flag byte (0: LZSS-compressed, 1: stored), a
/// little-endian size, and that many bytes.  Returns the plane, the rest of
/// the input, and the decompressor window after it.
pub open spec fn parse_plane(rest: Seq<u8>, w: Seq<u8>, s: int, plane_len: int) -> Result<
    (Seq<u8>, Seq<u8>, Seq<u8>, int),
    TlgError,
> {
    if rest.len() < 5 {
        Err(TlgError::UnexpectedEof)
    } else {
        let flag = rest[0];
        let size = le_u32_at(rest, 1);
        if rest.len() < 5 + size {
            Err(TlgError::UnexpectedEof)
        } else {
            let chunk = rest.subrange(5, 5 + size);
            let tail = rest.skip(5 + size);
            if flag == 0 {
                let (o, w1, s1) = lz_decode(chunk, w, s);
                if o.len() != plane_len {
                    Err(TlgError::PlaneSizeMismatch)
                } else {
                    Ok((o, tail, w1, s1))
                }
            } else if flag == 1 {
                if chunk.len() != plane_len {
                    Err(TlgError::PlaneSizeMismatch)
                } else {
                    Ok((chunk, tail, w, s))
                }
            } else {
                Err(TlgError::InvalidCompressionFlag)
            }
        }
    }
}

/// The first `n` planes of a block.
pub open spec fn parse_planes(rest: Seq<u8>, w: Seq<u8>, s: int, plane_len: int, n: nat) -> Result<
    (Seq<Seq<u8>>, Seq<u8>, Seq<u8>, int),
    TlgError,
>
    decreases n,
{
    if n == 0 {
        Ok((seq![], rest, w, s))
    } else {
        match parse_planes(rest, w, s, plane_len, (n - 1) as nat) {
            Err(e) => Err(e),
            Ok((ps, r1, w1, s1)) => match parse_plane(r1, w1, s1, plane_len) {
                Err(e) => Err(e),
                Ok((p, r2, w2, s2)) => Ok((ps.push(p), r2, w2, s2)),
            },
        }
    }
}

/// The first `n` blocks: each is `colors` planes, and must occupy exactly
/// the size that the block table gives it.
pub open spec fn parse_blocks(
    rest: Seq<u8>,
    w: Seq<u8>,
    s: int,
    sizes: Seq<int>,
    width: int,
    height: int,
    colors: nat,
    n: nat,
) -> Result<(Seq<Seq<Seq<u8>>>, Seq<u8>, Seq<u8>, int), TlgError>
    decreases n,
{
    if n == 0 {
        Ok((seq![], rest, w, s))
    } else {
        match parse_blocks(rest, w, s, sizes, width, height, colors, (n - 1) as nat) {
            Err(e) => Err(e),
            Ok((bs, r1, w1, s1)) => {
                let b = n - 1;
                match parse_planes(r1, w1, s1, width * block_rows(height, b), colors) {
                    Err(e) => Err(e),
                    Ok((ps, r2, w2, s2)) => if r1.len() - r2.len() != sizes[b] {
                        Err(TlgError::BlockSizeMismatch)
                    } else {
                        Ok((bs.push(ps), r2, w2, s2))
                    },
                }
            },
        }
    }
}

/// The per-pixel value that the planes give channel `c` of pixel `(x, y)`:
/// green is stored as is, red and blue relative to green.
#[verifier::opaque]
pub open spec fn t5_value(
    planes: Seq<Seq<Seq<u8>>>,
    width: int,
    layout: PixelLayout,
    y: int,
    x: int,
    c: int,
) -> int {
    let b = y / 4;
    let k = (y % 4) * width + x;
    match layout {
        PixelLayout::Gray => planes[b][0][k] as int,
        _ => {
            let g = planes[b][1][k] as int;
            if c == 0 {
                (planes[b][2][k] as int + g) % 256
            } else if c == 1 {
                g
            } else if c == 2 {
                (planes[b][0][k] as int + g) % 256
            } else {
                planes[b][3][k] as int
            }
        },
    }
}

/// Running sum of the values along row `y`, up to column `x`.
pub open spec fn t5_row_sum(
    planes: Seq<Seq<Seq<u8>>>,
    width: int,
    layout: PixelLayout,
    y: int,
    x: int,
    c: int,
) -> int
    decreases x,
{
    if x <= 0 {
        t5_value(planes, width, layout, y, 0, c) % 256
    } else {
        (t5_row_sum(planes, width, layout, y, x - 1, c) + t5_value(planes, width, layout, y, x, c))
            % 256
    }
}

/// The decoded channel `c` of pixel `(x, y)`: the pixel above plus the row sum.
pub open spec fn t5_pixel(
    planes: Seq<Seq<Seq<u8>>>,
    width: int,
    layout: PixelLayout,
    y: int,
    x: int,
    c: int,
) -> int
    decreases y,
{
    if y <= 0 {
        t5_row_sum(planes, width, layout, 0, x, c)
    } else {
        (t5_pixel(planes, width, layout, y - 1, x, c) + t5_row_sum(planes, width, layout, y, x, c))
            % 256
    }
}

/// The decoded image: `height` rows of `width` pixels of `colors` bytes.
pub open spec fn t5_image(planes: Seq<Seq<Seq<u8>>>, width: int, height: int, layout: PixelLayout) -> Seq<u8> {
    let c = spec_colors(layout) as int;
    Seq::new(
        (width * height * c) as nat,
        |i: int| t5_pixel(planes, width, layout, i / (width * c), (i % (width * c)) / c, i % c) as u8,
    )
}

/// The header of a TLG5 stream: the layout, width and height it announces,
/// or the first error met reading it.
pub open spec fn tlg5_header(data: Seq<u8>) -> Result<(PixelLayout, int, int), TlgError> {
    if data.len() < 11 {
        Err(TlgError::UnexpectedEof)
    } else if data.take(11) != tlg5_magic() {
        Err(TlgError::BadMagic)
    } else if data.len() < 12 {
        Err(TlgError::UnexpectedEof)
    } else {
        match layout_of_colors(data[11]) {
            None => Err(TlgError::UnsupportedColors),
            Some(layout) => {
                if data.len() < 24 {
                    Err(TlgError::UnexpectedEof)
                } else {
                    let width = le_u32_at(data, 12);
                    let height = le_u32_at(data, 16);
                    let colors = spec_colors(layout);
                    if le_u32_at(data, 20) != 4 {
                        Err(TlgError::UnsupportedBlockHeight)
                    } else if data.len() < 24 + 4 * block_count(height) {
                        Err(TlgError::UnexpectedEof)
                    } else if width * colors > usize::MAX || width * colors * height > usize::MAX {
                        Err(TlgError::ImageTooLarge)
                    } else {
                        Ok((layout, width, height))
                    }
                }
            },
        }
    }
}

/// The block table: the size of each block.
pub open spec fn tlg5_block_sizes(data: Seq<u8>, height: int) -> Seq<int> {
    Seq::new(block_count(height) as nat, |b: int| le_u32_at(data, 24 + 4 * b))
}

/// What decoding a TLG5 stream gives: the pixels and the image description,
/// or the first error met.
pub open spec fn tlg5_decode_spec(data: Seq<u8>) -> Result<(Seq<u8>, ImageInfo), TlgError> {
    match tlg5_header(data) {
        Err(e) => Err(e),
        Ok((layout, width, height)) => {
            let bc = block_count(height);
            match parse_blocks(
                data.skip(24 + 4 * bc),
                initial_window(),
                0,
                tlg5_block_sizes(data, height),
                width,
                height,
                spec_colors(layout),
                bc as nat,
            ) {
                Err(e) => Err(e),
                Ok((planes, _r, _w, _s)) => Ok(
                    (
                        t5_image(planes, width, height, layout),
                        ImageInfo { width: width as u32, height: height as u32, pixel_layout: layout },
                    ),
                ),
            }
        },
    }
}

} // verus!
