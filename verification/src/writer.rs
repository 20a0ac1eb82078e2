//! Writing TLG images, plain or wrapped with their tags.

use vstd::prelude::*;
use crate::container::{sds_bytes, sds_parts, wrap_sds, append_slice};
use crate::tags::{tag_seq, tags_bytes, tags_to_data};
use crate::tlg5::{tlg5_decode_spec, Tlg5Encoder};
use crate::tlg5::encode::tlg5_stream;
use crate::tlg5::max_block_rows;
use crate::bytes::le_u32_at;
use crate::slide::lz_decode;
use crate::tlg6::encode::{filter_codes, filter_table, image_overflows, image_runs_short, max_bit_length, tlg6_stream, Tlg6Encoder};
use crate::tlg6::{ceil_div8, lzss_train, tlg6_decode_spec, tlg6_magic};
use crate::tlg6::image::tlg6_coded;
use crate::tlg_type::{spec_colors, ImageInfo, PixelLayout, TlgError, TlgType};

verus! {

/// A TLG5 or TLG6 encoder.
pub enum TlgEncoder {
    Tlg5(Tlg5Encoder),
    Tlg6(Tlg6Encoder),
}

/// What the two encoders need of their image.
pub open spec fn encodable(e: TlgEncoder) -> bool {
    match e {
        TlgEncoder::Tlg5(t) => {
            let c = spec_colors(t.spec_layout());
            &&& t.pixels().len() >= t.spec_width() * t.spec_height() * c
            &&& t.spec_width() * c <= usize::MAX
            &&& t.spec_width() * t.spec_height() * c <= usize::MAX
            &&& c * (5 + t.spec_width() * max_block_rows(t.spec_height() as int)) <= u32::MAX
        },
        TlgEncoder::Tlg6(t) => {
            let c = spec_colors(t.spec_layout());
            &&& t.pixels().len() >= t.spec_width() * t.spec_height() * c
            &&& t.spec_width() * t.spec_height() * c + 4 <= usize::MAX
            &&& 8 * t.spec_width() <= u32::MAX
            &&& 1024 * t.spec_width() + 64 <= usize::MAX
        },
    }
}

/// A TLG6 stream is the one the coder writes for the image (`tlg6_stream`):
/// its header holds the largest bit length of its channel codings, and its
/// filter table decompresses to the filter bytes the coder picks.
#[verifier::opaque]
pub open spec fn tlg6_tables_ok(t: Tlg6Encoder, out: Seq<u8>) -> bool {
    &&& out == tlg6_stream(t.pixels(), t.spec_width(), t.spec_height(), spec_colors(t.spec_layout()) as int)
    &&& le_u32_at(out, 23) == max_bit_length(
        out.skip(31 + le_u32_at(out, 27)),
        (ceil_div8(t.spec_height() as int) * spec_colors(t.spec_layout())) as nat,
    )
    &&& lz_decode(out.subrange(31, 31 + le_u32_at(out, 27)), lzss_train(), 0).0 == filter_codes(
        t.pixels(),
        t.spec_width() as int,
        t.spec_height() as int,
        spec_colors(t.spec_layout()) as int,
    )
}

/// Whether the encoder's image lies where the round trip holds: always for
/// TLG5; for TLG6, where no channel of a block row has a run of `2^26` or
/// more residuals of equal zero-ness (`image_runs_short`), which the
/// decoder's 32-bit window cannot read back wherever it starts.
pub open spec fn runs_fit(e: TlgEncoder) -> bool {
    match e {
        TlgEncoder::Tlg5(_) => true,
        TlgEncoder::Tlg6(t) => image_runs_short(
            t.pixels(),
            t.spec_width() as int,
            t.spec_height() as int,
            spec_colors(t.spec_layout()) as int,
        ),
    }
}

/// Whether the TLG6 encoder fails on the image for a channel coding too
/// long for its bit length (see `image_overflows`); never for TLG5.
pub open spec fn overflows(e: TlgEncoder) -> bool {
    match e {
        TlgEncoder::Tlg5(_) => false,
        TlgEncoder::Tlg6(t) => image_overflows(
            t.pixels(),
            t.spec_width() as int,
            t.spec_height() as int,
            spec_colors(t.spec_layout()) as int,
        ),
    }
}

/// The stream the encoder writes for its image (`tlg5_stream` or
/// `tlg6_stream`).
pub open spec fn encoded_stream(e: TlgEncoder) -> Seq<u8> {
    match e {
        TlgEncoder::Tlg5(t) => tlg5_stream(t.pixels(), t.spec_width(), t.spec_height(), t.spec_layout()),
        TlgEncoder::Tlg6(t) => tlg6_stream(
            t.pixels(),
            t.spec_width(),
            t.spec_height(),
            spec_colors(t.spec_layout()) as int,
        ),
    }
}

/// Whether the TLG6 encoder refuses the image because its compressed
/// filter table would not fit in four gigabytes; never for TLG5.
pub open spec fn table_too_long(e: TlgEncoder) -> bool {
    match e {
        TlgEncoder::Tlg5(_) => false,
        TlgEncoder::Tlg6(t) => !image_overflows(
            t.pixels(),
            t.spec_width() as int,
            t.spec_height() as int,
            spec_colors(t.spec_layout()) as int,
        ) && filter_table(
            filter_codes(
                t.pixels(),
                t.spec_width() as int,
                t.spec_height() as int,
                spec_colors(t.spec_layout()) as int,
            ),
        ).len() > u32::MAX,
    }
}

/// The bytes a writer writes when it succeeds: the encoder's stream alone
/// without tags, else the container of the stream and the tag block.
pub open spec fn written_bytes(e: TlgEncoder, tags: Seq<(Seq<u8>, Seq<u8>)>) -> Seq<u8> {
    if tags.len() == 0 {
        encoded_stream(e)
    } else {
        sds_bytes(encoded_stream(e), tags_bytes(tags))
    }
}

/// Whether a writer with tags refuses the image because the encoder's
/// stream or the tag block would not fit in four gigabytes.
pub open spec fn parts_too_long(e: TlgEncoder, tags: Seq<(Seq<u8>, Seq<u8>)>) -> bool {
    tags.len() > 0 && (encoded_stream(e).len() > u32::MAX || tags_bytes(tags).len() > u32::MAX)
}

/// Two writers over the same pixels, size, layout, format and tags,
/// however they were built, need the same of their image, fail alike, and
/// write the same bytes.
pub proof fn lemma_same_writer_bytes(w1: TlgWrite, w2: TlgWrite)
    requires
        w1.spec_encoder().pixels() == w2.spec_encoder().pixels(),
        w1.spec_encoder().spec_width() == w2.spec_encoder().spec_width(),
        w1.spec_encoder().spec_height() == w2.spec_encoder().spec_height(),
        w1.spec_encoder().spec_layout() == w2.spec_encoder().spec_layout(),
        (w1.spec_encoder() is Tlg5) == (w2.spec_encoder() is Tlg5),
        w1.spec_tags() == w2.spec_tags(),
    ensures
        encodable(w1.spec_encoder()) == encodable(w2.spec_encoder()),
        overflows(w1.spec_encoder()) == overflows(w2.spec_encoder()),
        table_too_long(w1.spec_encoder()) == table_too_long(w2.spec_encoder()),
        parts_too_long(w1.spec_encoder(), w1.spec_tags()) == parts_too_long(w2.spec_encoder(), w2.spec_tags()),
        written_bytes(w1.spec_encoder(), w1.spec_tags()) == written_bytes(w2.spec_encoder(), w2.spec_tags()),
{
}

/// What the encoders promise of a stream they produce: TLG5 streams decode
/// back to the image; TLG6 streams carry the image's header, are accepted
/// by the decoder with the image's dimensions and layout, and code the
/// image (`tlg6_coded`), so that the decoder gives its pixels back; their
/// header holds the largest bit length of their channel codings and their
/// filter table the filter bytes the coder picks.
pub open spec fn encoded_ok(e: TlgEncoder, out: Seq<u8>) -> bool {
    match e {
        TlgEncoder::Tlg5(t) => {
            let c = spec_colors(t.spec_layout());
            tlg5_decode_spec(out) == Ok::<(Seq<u8>, ImageInfo), TlgError>(
                (
                    t.pixels().take(t.spec_width() * t.spec_height() * c),
                    ImageInfo { width: t.spec_width(), height: t.spec_height(), pixel_layout: t.spec_layout() },
                ),
            )
        },
        TlgEncoder::Tlg6(t) => {
            &&& out.len() >= 31
            &&& out.take(11) == tlg6_magic()
            &&& out[11] == spec_colors(t.spec_layout())
            &&& ((t.spec_width() > 0 || t.spec_height() == 0) && t.spec_width() * t.spec_height() * 4 <= usize::MAX
                ==> tlg6_decode_spec(out) == Ok::<ImageInfo, TlgError>(
                ImageInfo { width: t.spec_width(), height: t.spec_height(), pixel_layout: t.spec_layout() },
            ))
            &&& ((t.spec_width() > 0 || t.spec_height() == 0) && t.spec_width() * t.spec_height() * 4 <= usize::MAX && image_runs_short(
                t.pixels(),
                t.spec_width() as int,
                t.spec_height() as int,
                spec_colors(t.spec_layout()) as int,
            ) ==> tlg6_coded(out, t.pixels()))
            &&& tlg6_tables_ok(t, out)
        },
    }
}

impl TlgEncoder {
    /// The width in pixels.
    pub open spec fn spec_width(&self) -> u32 {
        match self {
            TlgEncoder::Tlg5(e) => e.spec_width(),
            TlgEncoder::Tlg6(e) => e.spec_width(),
        }
    }

    /// The height in pixels.
    pub open spec fn spec_height(&self) -> u32 {
        match self {
            TlgEncoder::Tlg5(e) => e.spec_height(),
            TlgEncoder::Tlg6(e) => e.spec_height(),
        }
    }

    /// The raw pixels.
    pub open spec fn pixels(&self) -> Seq<u8> {
        match self {
            TlgEncoder::Tlg5(e) => e.pixels(),
            TlgEncoder::Tlg6(e) => e.pixels(),
        }
    }

    /// The pixel layout.
    pub open spec fn spec_layout(&self) -> PixelLayout {
        match self {
            TlgEncoder::Tlg5(e) => e.spec_layout(),
            TlgEncoder::Tlg6(e) => e.spec_layout(),
        }
    }

    /// The width in pixels.
    pub fn width(&self) -> (w: u32)
        ensures
            w == self.spec_width(),
    {
        match self {
            TlgEncoder::Tlg5(e) => e.width(),
            TlgEncoder::Tlg6(e) => e.width(),
        }
    }

    /// The height in pixels.
    pub fn height(&self) -> (h: u32)
        ensures
            h == self.spec_height(),
    {
        match self {
            TlgEncoder::Tlg5(e) => e.height(),
            TlgEncoder::Tlg6(e) => e.height(),
        }
    }

    /// The pixel layout.
    pub fn pixel_layout(&self) -> (l: PixelLayout)
        ensures
            l == self.spec_layout(),
    {
        match self {
            TlgEncoder::Tlg5(e) => e.pixel_layout(),
            TlgEncoder::Tlg6(e) => e.pixel_layout(),
        }
    }

    /// Whether the image meets what its encoder needs (see `encodable`).
    pub fn can_encode(&self) -> (b: bool)
        ensures
            b == encodable(*self),
    {
        match self {
            TlgEncoder::Tlg5(e) => {
                let c = e.pixel_layout().colors() as u128;
                let w = e.width() as u128;
                let h = e.height() as u128;
                let n = e.data_len() as u128;
                assert(w * h <= 0xffff_ffff * 0xffff_ffff) by (nonlinear_arith)
                    requires
                        w <= 0xffff_ffff,
                        h <= 0xffff_ffff,
                ;
                assert(w * h * c <= 0xffff_ffff * 0xffff_ffff * 4) by (nonlinear_arith)
                    requires
                        w * h <= 0xffff_ffff * 0xffff_ffff,
                        c <= 4,
                ;
                let r: u128 = if h < 4 {
                    h
                } else {
                    4
                };
                assert(w * r <= 0xffff_ffff * 4) by (nonlinear_arith)
                    requires
                        w <= 0xffff_ffff,
                        r <= 4,
                ;
                assert(c * (5 + w * r) <= 4 * (5 + 0xffff_ffff * 4)) by (nonlinear_arith)
                    requires
                        w * r <= 0xffff_ffff * 4,
                        c <= 4,
                ;
                n >= w * h * c && w * c <= usize::MAX as u128 && w * h * c <= usize::MAX as u128 && c * (5 + w * r)
                    <= 0xffff_ffff
            },
            TlgEncoder::Tlg6(e) => {
                let c = e.pixel_layout().colors() as u128;
                let w = e.width() as u128;
                let h = e.height() as u128;
                let n = e.data_len() as u128;
                assert(w * h <= 0xffff_ffff * 0xffff_ffff) by (nonlinear_arith)
                    requires
                        w <= 0xffff_ffff,
                        h <= 0xffff_ffff,
                ;
                assert(w * h * c <= 0xffff_ffff * 0xffff_ffff * 4) by (nonlinear_arith)
                    requires
                        w * h <= 0xffff_ffff * 0xffff_ffff,
                        c <= 4,
                ;
                n >= w * h * c && w * h * c + 4 <= usize::MAX as u128 && 8 * w <= 0xffff_ffff && 1024 * w + 64 <= usize::MAX as u128
            },
        }
    }

    /// Encodes the image with the chosen encoder (see `encoded_ok`).
    pub fn encode(&self) -> (r: Result<Vec<u8>, TlgError>)
        requires
            encodable(*self),
        ensures
            r matches Ok(out) ==> encoded_ok(*self, out@) && out@ == encoded_stream(*self),
            r is Err ==> self is Tlg6 && (r->Err_0 == TlgError::BitLengthOverflow || r->Err_0 == TlgError::ImageTooLarge),
            (r is Err && r->Err_0 == TlgError::BitLengthOverflow) <==> overflows(*self),
            (r is Err && r->Err_0 == TlgError::ImageTooLarge) <==> table_too_long(*self),
    {
        match self {
            TlgEncoder::Tlg5(e) => e.encode(),
            TlgEncoder::Tlg6(e) => {
                let r = e.encode();
                proof {
                    reveal(tlg6_tables_ok);
                }
                r
            },
        }
    }

    /// Encodes the image (see `encode`) and appends the stream to `out`;
    /// `out` is left as it was where encoding fails.
    pub fn encode_to(&self, out: &mut Vec<u8>) -> (r: Result<(), TlgError>)
        requires
            encodable(*self),
        ensures
            r is Ok ==> final(out)@.take(old(out)@.len() as int) == old(out)@ && encoded_ok(
                *self,
                final(out)@.skip(old(out)@.len() as int),
            ),
            r is Ok ==> final(out)@ == old(out)@ + encoded_stream(*self),
            r is Err ==> *final(out) == *old(out) && self is Tlg6 && (r->Err_0 == TlgError::BitLengthOverflow
                || r->Err_0 == TlgError::ImageTooLarge),
            (r is Err && r->Err_0 == TlgError::BitLengthOverflow) <==> overflows(*self),
            (r is Err && r->Err_0 == TlgError::ImageTooLarge) <==> table_too_long(*self),
    {
        match self.encode() {
            Ok(bytes) => {
                append_slice(out, bytes.as_slice());
                assert(final(out)@.take(old(out)@.len() as int) =~= old(out)@);
                assert(final(out)@.skip(old(out)@.len() as int) =~= bytes@);
                assert(final(out)@ =~= old(out)@ + bytes@);
                Ok(())
            },
            Err(e) => Err(e),
        }
    }
}

/// An encoder together with the tags written beside the image.
pub struct TlgWrite {
    encoder: TlgEncoder,
    tags: Vec<(Vec<u8>, Vec<u8>)>,
}

/// What a writer promises of the bytes it writes: without tags, the
/// encoder's stream; with tags, a container holding the encoder's stream
/// and the tag block of the tags, in order.
pub open spec fn written_ok(e: TlgEncoder, tags: Seq<(Seq<u8>, Seq<u8>)>, out: Seq<u8>) -> bool {
    if tags.len() == 0 {
        encoded_ok(e, out)
    } else {
        let raw = sds_parts(out).0;
        &&& raw.len() <= u32::MAX
        &&& tags_bytes(tags).len() <= u32::MAX
        &&& out == sds_bytes(raw, tags_bytes(tags))
        &&& encoded_ok(e, raw)
    }
}

impl TlgWrite {
    /// The encoder.
    pub closed spec fn spec_encoder(&self) -> TlgEncoder {
        self.encoder
    }

    /// The tags, as byte strings, in order.
    pub closed spec fn spec_tags(&self) -> Seq<(Seq<u8>, Seq<u8>)> {
        tag_seq(self.tags@)
    }

    fn new(tags: Vec<(Vec<u8>, Vec<u8>)>, encoder: TlgEncoder) -> (w: TlgWrite)
        ensures
            w.spec_encoder() == encoder,
            w.spec_tags() == tag_seq(tags@),
    {
        TlgWrite { encoder, tags }
    }

    /// A writer for a gray image (one byte per pixel).
    pub fn from_gray(data: Vec<u8>, tags: Vec<(Vec<u8>, Vec<u8>)>, width: u32, height: u32, tlg_type: TlgType) -> (w: TlgWrite)
        ensures
            w.spec_tags() == tag_seq(tags@),
            w.spec_encoder().spec_width() == width,
            w.spec_encoder().spec_height() == height,
            w.spec_encoder().spec_layout() == PixelLayout::Gray,
            w.spec_encoder().pixels() == data@,
            (w.spec_encoder() is Tlg5) == (tlg_type == TlgType::Tlg5),
    {
        let encoder = match tlg_type {
            TlgType::Tlg5 => TlgEncoder::Tlg5(Tlg5Encoder::from_gray(data, width, height)),
            TlgType::Tlg6 => TlgEncoder::Tlg6(Tlg6Encoder::from_gray(data, width, height)),
        };
        TlgWrite::new(tags, encoder)
    }

    /// A writer for an RGB image (three bytes per pixel).
    pub fn from_rgb(data: Vec<u8>, tags: Vec<(Vec<u8>, Vec<u8>)>, width: u32, height: u32, tlg_type: TlgType) -> (w: TlgWrite)
        ensures
            w.spec_tags() == tag_seq(tags@),
            w.spec_encoder().spec_width() == width,
            w.spec_encoder().spec_height() == height,
            w.spec_encoder().spec_layout() == PixelLayout::Rgb,
            w.spec_encoder().pixels() == data@,
            (w.spec_encoder() is Tlg5) == (tlg_type == TlgType::Tlg5),
    {
        let encoder = match tlg_type {
            TlgType::Tlg5 => TlgEncoder::Tlg5(Tlg5Encoder::from_rgb(data, width, height)),
            TlgType::Tlg6 => TlgEncoder::Tlg6(Tlg6Encoder::from_rgb(data, width, height)),
        };
        TlgWrite::new(tags, encoder)
    }

    /// A writer for an RGBA image (four bytes per pixel).
    pub fn from_rgba(data: Vec<u8>, tags: Vec<(Vec<u8>, Vec<u8>)>, width: u32, height: u32, tlg_type: TlgType) -> (w: TlgWrite)
        ensures
            w.spec_tags() == tag_seq(tags@),
            w.spec_encoder().spec_width() == width,
            w.spec_encoder().spec_height() == height,
            w.spec_encoder().spec_layout() == PixelLayout::Rgba,
            w.spec_encoder().pixels() == data@,
            (w.spec_encoder() is Tlg5) == (tlg_type == TlgType::Tlg5),
    {
        let encoder = match tlg_type {
            TlgType::Tlg5 => TlgEncoder::Tlg5(Tlg5Encoder::from_rgba(data, width, height)),
            TlgType::Tlg6 => TlgEncoder::Tlg6(Tlg6Encoder::from_rgba(data, width, height)),
        };
        TlgWrite::new(tags, encoder)
    }

    /// A writer for raw pixels in the given layout.
    pub fn from_raw(
        data: Vec<u8>,
        tags: Vec<(Vec<u8>, Vec<u8>)>,
        width: u32,
        height: u32,
        pixel_layout: PixelLayout,
        tlg_type: TlgType,
    ) -> (w: TlgWrite)
        ensures
            w.spec_tags() == tag_seq(tags@),
            w.spec_encoder().spec_width() == width,
            w.spec_encoder().spec_height() == height,
            w.spec_encoder().spec_layout() == pixel_layout,
            w.spec_encoder().pixels() == data@,
            (w.spec_encoder() is Tlg5) == (tlg_type == TlgType::Tlg5),
    {
        let encoder = match tlg_type {
            TlgType::Tlg5 => TlgEncoder::Tlg5(Tlg5Encoder::from_raw(data, pixel_layout, width, height)),
            TlgType::Tlg6 => TlgEncoder::Tlg6(Tlg6Encoder::from_raw(data, pixel_layout, width, height)),
        };
        TlgWrite::new(tags, encoder)
    }

    /// Whether the image meets what its encoder needs (see `encodable`).
    pub fn can_encode(&self) -> (b: bool)
        ensures
            b == encodable(self.spec_encoder()),
    {
        self.encoder.can_encode()
    }

    /// Writes the image: the encoder's stream alone where there are no
    /// tags, else a container with the stream and the tag block (see
    /// `written_ok`).  Fails where the encoder fails, or where the stream or
    /// the tag block does not fit in four gigabytes.
    pub fn encode(&self) -> (r: Result<Vec<u8>, TlgError>)
        requires
            encodable(self.spec_encoder()),
        ensures
            r matches Ok(out) ==> written_ok(self.spec_encoder(), self.spec_tags(), out@),
            r matches Ok(out) ==> out@ == written_bytes(self.spec_encoder(), self.spec_tags()),
            (r is Err && r->Err_0 == TlgError::BitLengthOverflow) <==> overflows(self.spec_encoder()),
            (r is Err && r->Err_0 == TlgError::ImageTooLarge) <==> table_too_long(self.spec_encoder()) || (!overflows(
                self.spec_encoder(),
            ) && parts_too_long(self.spec_encoder(), self.spec_tags())),
            r is Err ==> (self.spec_encoder() is Tlg6 && (r->Err_0 == TlgError::BitLengthOverflow || r->Err_0
                == TlgError::ImageTooLarge)) || (self.spec_tags().len() > 0 && r->Err_0 == TlgError::ImageTooLarge),
            self.spec_encoder() is Tlg5 && self.spec_tags().len() == 0 ==> r is Ok,
    {
        let raw = match self.encoder.encode() {
            Ok(raw) => raw,
            Err(e) => {
                return Err(e);
            },
        };
        if self.tags.len() == 0 {
            return Ok(raw);
        }
        let tb = tags_to_data(&self.tags);
        if raw.len() > 0xffff_ffff || tb.len() > 0xffff_ffff {
            return Err(TlgError::ImageTooLarge);
        }
        let out = wrap_sds(raw.as_slice(), tb.as_slice());
        proof {
            crate::container::lemma_sds_parts(raw@, tb@);
        }
        Ok(out)
    }

    /// Writes the image (see `encode`) and appends the bytes to `out`;
    /// `out` is left as it was where writing fails.
    pub fn encode_to(&self, out: &mut Vec<u8>) -> (r: Result<(), TlgError>)
        requires
            encodable(self.spec_encoder()),
        ensures
            r is Ok ==> final(out)@.take(old(out)@.len() as int) == old(out)@ && written_ok(
                self.spec_encoder(),
                self.spec_tags(),
                final(out)@.skip(old(out)@.len() as int),
            ),
            r is Ok ==> final(out)@ == old(out)@ + written_bytes(self.spec_encoder(), self.spec_tags()),
            r is Err ==> *final(out) == *old(out) && ((self.spec_encoder() is Tlg6 && (r->Err_0
                == TlgError::BitLengthOverflow || r->Err_0 == TlgError::ImageTooLarge)) || (self.spec_tags().len() > 0
                && r->Err_0 == TlgError::ImageTooLarge)),
            (r is Err && r->Err_0 == TlgError::BitLengthOverflow) <==> overflows(self.spec_encoder()),
            (r is Err && r->Err_0 == TlgError::ImageTooLarge) <==> table_too_long(self.spec_encoder()) || (!overflows(
                self.spec_encoder(),
            ) && parts_too_long(self.spec_encoder(), self.spec_tags())),
    {
        match self.encode() {
            Ok(bytes) => {
                append_slice(out, bytes.as_slice());
                assert(final(out)@.take(old(out)@.len() as int) =~= old(out)@);
                assert(final(out)@.skip(old(out)@.len() as int) =~= bytes@);
                assert(final(out)@ =~= old(out)@ + bytes@);
                Ok(())
            },
            Err(e) => Err(e),
        }
    }

    /// The width in pixels.
    pub fn width(&self) -> (w: u32)
        ensures
            w == self.spec_encoder().spec_width(),
    {
        self.encoder.width()
    }

    /// The height in pixels.
    pub fn height(&self) -> (h: u32)
        ensures
            h == self.spec_encoder().spec_height(),
    {
        self.encoder.height()
    }

    /// The pixel layout.
    pub fn pixel_layout(&self) -> (l: PixelLayout)
        ensures
            l == self.spec_encoder().spec_layout(),
    {
        self.encoder.pixel_layout()
    }

    /// The tags.
    pub fn tags(&self) -> (t: &Vec<(Vec<u8>, Vec<u8>)>)
        ensures
            tag_seq(t@) == self.spec_tags(),
    {
        &self.tags
    }
}

} // verus!
