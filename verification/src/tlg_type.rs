use vstd::prelude::*;

verus! {

/// How the channels of one pixel are laid out in a raw pixel buffer.
#[derive(Copy, Clone, Debug, PartialEq, Eq, Structural)]
pub enum PixelLayout {
    Gray,
    Rgb,
    Rgba,
}

/// The two TLG variants.
#[derive(Copy, Clone, Debug, PartialEq, Eq, Structural)]
pub enum TlgType {
    Tlg5,
    Tlg6,
}

/// Dimensions and layout of a decoded image.
#[derive(Copy, Clone, Debug, PartialEq, Eq, Structural)]
pub struct ImageInfo {
    pub width: u32,
    pub height: u32,
    pub pixel_layout: PixelLayout,
}

/// Number of channels of a layout.
pub open spec fn spec_colors(layout: PixelLayout) -> nat {
    match layout {
        PixelLayout::Gray => 1,
        PixelLayout::Rgb => 3,
        PixelLayout::Rgba => 4,
    }
}

impl PixelLayout {
    /// Number of channels (bytes) of one pixel in this layout.
    pub fn colors(&self) -> (c: usize)
        ensures
            c == spec_colors(*self),
    {
        match self {
            PixelLayout::Gray => 1,
            PixelLayout::Rgb => 3,
            PixelLayout::Rgba => 4,
        }
    }
}

/// Everything that can go wrong while reading or writing a TLG stream.
#[derive(Copy, Clone, Debug, PartialEq, Eq, Structural)]
pub enum TlgError {
    /// The stream ended before a field could be read.
    UnexpectedEof,
    /// The magic bytes are not the expected ones.
    BadMagic,
    /// The colour count in the header is not 1, 3 or 4.
    UnsupportedColors,
    /// TLG5: the block height in the header is not 4.
    UnsupportedBlockHeight,
    /// TLG5: a plane's compression flag is neither 0 nor 1.
    InvalidCompressionFlag,
    /// TLG5: a plane does not decode to the expected number of bytes.
    PlaneSizeMismatch,
    /// TLG5: a block does not occupy the size announced in the block table.
    BlockSizeMismatch,
    /// TLG6: the entropy coding method of a channel is not Golomb.
    UnsupportedEntropyMethod,
    /// TLG6: the stream is shorter than its fixed header.
    DataTooShort,
    /// TLG6: the filter table does not cover every block.
    FilterTableTooShort,
    /// TLG6: a bit length does not fit in 30 bits.
    BitLengthOverflow,
    /// The image is too large for this machine's address space.
    ImageTooLarge,
    /// The tag block is not valid UTF-8.
    TagsNotUtf8,
    /// A length in the tag block is not a decimal number.
    TagLengthNotNumber,
}

} // verus!

verus! {

/// A decoder's result agrees with what its specification says the input decodes to.
pub open spec fn decoded_as(
    r: Result<(Vec<u8>, ImageInfo), TlgError>,
    s: Result<(Seq<u8>, ImageInfo), TlgError>,
) -> bool {
    match r {
        Ok((v, info)) => s == Ok::<(Seq<u8>, ImageInfo), TlgError>((v@, info)),
        Err(e) => s == Err::<(Seq<u8>, ImageInfo), TlgError>(e),
    }
}

} // verus!
