//! TLG6: 8x8 blocks, MED or average prediction, colour-correlation filters,
//! and adaptive Golomb-Rice coding of the residuals.

pub mod bitstream;
pub mod golomb;
pub mod filter;
pub mod predict;
pub mod packed;
pub mod decode;
pub mod encode;
pub mod image;

pub use decode::Tlg6Decoder;
pub use encode::Tlg6Encoder;

use vstd::prelude::*;
use crate::bytes::le_u32_at;
use crate::slide::{initial_window, lz_decode, put, write_all, SLIDE_N};
use crate::tlg5::layout_of_colors;
use crate::tlg_type::{ImageInfo, TlgError};

verus! {

/// Width of a block in pixels.
pub const W_BLOCK_SIZE: usize = 8;

/// Height of a block in pixels.
pub const H_BLOCK_SIZE: usize = 8;

/// The magic bytes `TLG6.0\0raw\x1a` that open a TLG6 stream.
pub open spec fn tlg6_magic() -> Seq<u8> {
    seq![84u8, 76u8, 71u8, 54u8, 46u8, 48u8, 0u8, 114u8, 97u8, 119u8, 26u8]
}

/// The text that both sides preload the filter-table window with: for
/// `i` in `0..32` and `j` in `0..16`, four bytes `i` then four bytes `j`.
pub open spec fn lzss_train() -> Seq<u8> {
    Seq::new(4096, |k: int| if k % 8 < 4 { (k / 128) as u8 } else { ((k % 128) / 8) as u8 })
}

/// The preloaded text is built as the format builds it: 4096 bytes, where
/// for each `i` in `0..32` and `j` in `0..16`, in that order, the eight
/// bytes from `8 * (16 * i + j)` are four bytes `i` followed by four bytes
/// `j`.
pub proof fn lemma_train_text(i: int, j: int, t: int)
    requires
        0 <= i < 32,
        0 <= j < 16,
        0 <= t < 4,
    ensures
        lzss_train().len() == 4096,
        lzss_train()[8 * (16 * i + j) + t] == i,
        lzss_train()[8 * (16 * i + j) + 4 + t] == j,
{
    let k = 8 * (16 * i + j) + t;
    assert(k % 8 == t && k / 128 == i && (k % 128) / 8 == j);
    let k2 = k + 4;
    assert(k2 % 8 == t + 4 && (k2 % 128) / 8 == j && k2 / 128 == i);
}

/// Writing a whole window's worth of bytes into the initial window leaves
/// exactly those bytes, and the write position back at 0.
pub proof fn lemma_train_window(t: Seq<u8>)
    requires
        t.len() == SLIDE_N,
    ensures
        write_all(initial_window(), 0, t) == (t, 0int),
{
    lemma_fill(t, SLIDE_N as nat);
    assert(t.take(SLIDE_N as int) =~= t);
    assert(t + initial_window().skip(SLIDE_N as int) =~= t);
}

proof fn lemma_fill(t: Seq<u8>, k: nat)
    requires
        t.len() == SLIDE_N,
        k <= SLIDE_N,
    ensures
        write_all(initial_window(), 0, t.take(k as int)) == (t.take(k as int) + initial_window().skip(k as int), (k % SLIDE_N as nat) as int),
    decreases k,
{
    if k == 0 {
        assert(t.take(0) + initial_window().skip(0) =~= initial_window());
        assert(t.take(0) =~= Seq::<u8>::empty());
    } else {
        lemma_fill(t, (k - 1) as nat);
        assert(t.take(k as int).drop_last() =~= t.take(k - 1));
        let w1 = t.take(k - 1) + initial_window().skip(k - 1);
        assert(w1.update(k - 1, t[k - 1]) =~= t.take(k as int) + initial_window().skip(k as int));
    }
}

/// `n / 8`, rounded up.
pub open spec fn ceil_div8(n: int) -> int {
    n / 8 + if n % 8 != 0 { 1int } else { 0int }
}

/// Blocks per block row as the decoder counts them: at least one.
pub open spec fn x_blocks(width: int) -> int {
    if width == 0 {
        1
    } else {
        ceil_div8(width)
    }
}

/// The bytes a channel's coding takes, from its bit-length field (the two
/// high bits name the coding method).
pub open spec fn chunk_len(bl: int) -> int {
    ceil_div8(bl % 0x4000_0000)
}

/// Walks the channel codings of block rows `row..rows` from `pos` on, channel
/// `c` of row `row` first: each takes a four-byte bit length and its bytes,
/// must be Golomb coded (method 0), and each row needs its filter codes.
pub open spec fn t6_scan(
    data: Seq<u8>,
    pos: int,
    row: int,
    rows: int,
    colors: int,
    c: int,
    ftlen: int,
    xbc: int,
) -> Result<(), TlgError>
    decreases rows - row, colors - c,
{
    if row >= rows {
        Ok(())
    } else if c < colors {
        if pos + 4 > data.len() {
            Err(TlgError::UnexpectedEof)
        } else {
            let bl = le_u32_at(data, pos);
            if pos + 4 + chunk_len(bl) > data.len() {
                Err(TlgError::UnexpectedEof)
            } else if bl / 0x4000_0000 != 0 {
                Err(TlgError::UnsupportedEntropyMethod)
            } else {
                t6_scan(data, pos + 4 + chunk_len(bl), row, rows, colors, c + 1, ftlen, xbc)
            }
        }
    } else if ftlen < (row + 1) * xbc {
        Err(TlgError::FilterTableTooShort)
    } else {
        t6_scan(data, pos, row + 1, rows, colors, 0, ftlen, xbc)
    }
}

/// What a TLG6 stream decodes to, as far as acceptance and the image's
/// dimensions and layout go: the header, the LZSS-compressed filter codes
/// (decompressed from the preloaded window), and the channel codings of each
/// block row.
pub open spec fn tlg6_decode_spec(data: Seq<u8>) -> Result<ImageInfo, TlgError> {
    if data.len() < 27 {
        Err(TlgError::DataTooShort)
    } else if data.take(11) != tlg6_magic() {
        Err(TlgError::BadMagic)
    } else if layout_of_colors(data[11]) is None {
        Err(TlgError::UnsupportedColors)
    } else if data.len() < 31 {
        Err(TlgError::UnexpectedEof)
    } else {
        let fs = le_u32_at(data, 27);
        let width = le_u32_at(data, 15);
        let height = le_u32_at(data, 19);
        if data.len() < 31 + fs {
            Err(TlgError::UnexpectedEof)
        } else if width * height * 4 > usize::MAX {
            Err(TlgError::ImageTooLarge)
        } else {
            let ft = lz_decode(data.subrange(31, 31 + fs), lzss_train(), 0).0;
            match t6_scan(data, 31 + fs, 0, ceil_div8(height), data[11] as int, 0, ft.len() as int, x_blocks(width)) {
                Err(e) => Err(e),
                Ok(_) => Ok(
                    ImageInfo {
                        width: width as u32,
                        height: height as u32,
                        pixel_layout: layout_of_colors(data[11]).unwrap(),
                    },
                ),
            }
        }
    }
}

} // verus!
