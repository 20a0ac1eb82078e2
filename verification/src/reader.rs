//! Reading TLG images: a plain TLG5 or TLG6 stream, or a container holding
//! one together with its tags.

use vstd::prelude::*;
use crate::bytes::{le_bytes, le_u32_at};
use crate::container::{has_sds_magic, lemma_sds_parts, sds_magic, sds_parts, tags_chunk_name};
use crate::tags::{
    copy_range, data_to_tags, dedup_last, is_utf8, keys_distinct, lemma_dedup_keeps_distinct, lemma_tags_roundtrip, tag_safe,
    tag_seq, tags_bytes, tags_spec,
};
use crate::tlg6::tlg6_magic;
use crate::tlg6::decode::tlg6_pixels;
use crate::tlg6::image::tlg6_coded;
use crate::writer::{encoded_ok, runs_fit, written_ok, TlgEncoder};
use crate::tlg5::decode::{has_tlg5_magic, read_u32_at};
use crate::tlg5::{tlg5_decode_spec, tlg5_magic, Tlg5Decoder};
use crate::tlg6::{tlg6_decode_spec, Tlg6Decoder};
use crate::tlg_type::{spec_colors, ImageInfo, TlgError};

verus! {

/// Whether a stream is read as TLG5: it opens with the TLG5 magic.  Any
/// other stream is read as TLG6.
pub open spec fn stream_is_tlg5(img: Seq<u8>) -> bool {
    img.len() >= 11 && img.take(11) == tlg5_magic()
}

/// What a stream decodes to, as far as acceptance and the image's
/// dimensions and layout go.
pub open spec fn stream_info(img: Seq<u8>) -> Result<ImageInfo, TlgError> {
    if stream_is_tlg5(img) {
        match tlg5_decode_spec(img) {
            Ok((_, info)) => Ok(info),
            Err(e) => Err(e),
        }
    } else {
        tlg6_decode_spec(img)
    }
}

/// Whether `data` is read as a container.
pub open spec fn is_container(data: Seq<u8>) -> bool {
    data.len() >= 11 && data.take(11) == sds_magic()
}

/// The stream that `data` holds: the whole of it, or the stream inside the
/// container.
pub open spec fn stream_of(data: Seq<u8>) -> Seq<u8> {
    if is_container(data) {
        sds_parts(data).0
    } else {
        data
    }
}

/// The tag chunk that follows the stream in a container: a four-byte name
/// (not checked), the size of the tag block, and the block, whose tags
/// are kept each key once with its last value (`dedup_last`).
pub open spec fn tag_chunk_spec(rest: Seq<u8>) -> Result<Seq<(Seq<u8>, Seq<u8>)>, TlgError> {
    if rest.len() < 8 {
        Err(TlgError::UnexpectedEof)
    } else if rest.len() < 8 + le_u32_at(rest, 4) {
        Err(TlgError::UnexpectedEof)
    } else {
        match tags_spec(rest.subrange(8, 8 + le_u32_at(rest, 4))) {
            Ok(t) => Ok(dedup_last(t)),
            Err(e) => Err(e),
        }
    }
}

/// What reading `data` gives: the image's description and the tags, or
/// the first error met.  A container yields its stream's image and the tags
/// of its tag chunk; plain data is one stream, without tags.
pub open spec fn tlg_read_spec(data: Seq<u8>) -> Result<(ImageInfo, Seq<(Seq<u8>, Seq<u8>)>), TlgError> {
    if data.len() < 11 {
        Err(TlgError::UnexpectedEof)
    } else if is_container(data) {
        if data.len() < 15 || sds_parts(data).0.len() < 11 {
            Err(TlgError::UnexpectedEof)
        } else {
            match stream_info(sds_parts(data).0) {
                Err(e) => Err(e),
                Ok(info) => match tag_chunk_spec(sds_parts(data).1) {
                    Err(e) => Err(e),
                    Ok(t) => Ok((info, t)),
                },
            }
        }
    } else {
        match stream_info(data) {
            Err(e) => Err(e),
            Ok(info) => Ok((info, Seq::empty())),
        }
    }
}

/// What a writer writes reads back: the image's width, height and layout,
/// and its tags, each key once with the value given last for it (the tags
/// themselves where no key occurs twice), where each tag reads back as
/// written (see `tag_safe`) and the tag block is UTF-8.  A TLG5 image reads back pixel
/// for pixel.  A TLG6 image needs to be at least one pixel wide (or no
/// pixel high) and to fit this machine's address space four bytes a pixel.
pub proof fn lemma_write_read(e: TlgEncoder, tags: Seq<(Seq<u8>, Seq<u8>)>, out: Seq<u8>)
    requires
        written_ok(e, tags, out),
        forall|i: int| 0 <= i < tags.len() ==> tag_safe(#[trigger] tags[i].0, tags[i].1),
        tags.len() > 0 ==> is_utf8(tags_bytes(tags)),
        e is Tlg6 ==> (e.spec_width() > 0 || e.spec_height() == 0) && e.spec_width() * e.spec_height() * 4
            <= usize::MAX,
    ensures
        tlg_read_spec(out) == Ok::<(ImageInfo, Seq<(Seq<u8>, Seq<u8>)>), TlgError>(
            (ImageInfo { width: e.spec_width(), height: e.spec_height(), pixel_layout: e.spec_layout() }, dedup_last(tags)),
        ),
        keys_distinct(tags) ==> dedup_last(tags) == tags,
        e is Tlg5 ==> stream_is_tlg5(stream_of(out)) && tlg5_decode_spec(stream_of(out)) == Ok::<
            (Seq<u8>, ImageInfo),
            TlgError,
        >(
            (
                e.pixels().take(e.spec_width() * e.spec_height() * spec_colors(e.spec_layout())),
                ImageInfo { width: e.spec_width(), height: e.spec_height(), pixel_layout: e.spec_layout() },
            ),
        ),
        e is Tlg6 ==> !stream_is_tlg5(stream_of(out)) && (runs_fit(e) ==> tlg6_coded(
            stream_of(out),
            e.pixels(),
        )),
{
    let info = ImageInfo { width: e.spec_width(), height: e.spec_height(), pixel_layout: e.spec_layout() };
    if keys_distinct(tags) {
        lemma_dedup_keeps_distinct(tags);
    }
    if tags.len() == 0 {
        lemma_encoded_stream(e, out, info);
        lemma_read_plain(out, info);
        assert(tags =~= Seq::<(Seq<u8>, Seq<u8>)>::empty());
        assert(dedup_last(tags) =~= Seq::<(Seq<u8>, Seq<u8>)>::empty());
    } else {
        let raw = sds_parts(out).0;
        lemma_encoded_stream(e, raw, info);
        lemma_read_container(raw, tags, info);
    }
}

proof fn lemma_read_plain(raw: Seq<u8>, info: ImageInfo)
    requires
        raw.len() >= 11,
        raw.take(11) != sds_magic(),
        stream_info(raw) == Ok::<ImageInfo, TlgError>(info),
    ensures
        stream_of(raw) == raw,
        tlg_read_spec(raw) == Ok::<(ImageInfo, Seq<(Seq<u8>, Seq<u8>)>), TlgError>((info, Seq::empty())),
{
}

proof fn lemma_read_container(raw: Seq<u8>, tags: Seq<(Seq<u8>, Seq<u8>)>, info: ImageInfo)
    requires
        raw.len() >= 11,
        raw.len() <= u32::MAX,
        tags_bytes(tags).len() <= u32::MAX,
        stream_info(raw) == Ok::<ImageInfo, TlgError>(info),
        forall|i: int| 0 <= i < tags.len() ==> tag_safe(#[trigger] tags[i].0, tags[i].1),
        is_utf8(tags_bytes(tags)),
    ensures
        stream_of(crate::container::sds_bytes(raw, tags_bytes(tags))) == raw,
        tlg_read_spec(crate::container::sds_bytes(raw, tags_bytes(tags))) == Ok::<
            (ImageInfo, Seq<(Seq<u8>, Seq<u8>)>),
            TlgError,
        >((info, dedup_last(tags))),
{
    let tb = tags_bytes(tags);
    let out = crate::container::sds_bytes(raw, tb);
    lemma_sds_parts(raw, tb);
    let rest = tags_chunk_name() + le_bytes(tb.len() as u32) + tb;
    lemma_tag_chunk(tags);
    assert(sds_parts(out).0 == raw && sds_parts(out).1 == rest);
    assert(is_container(out));
}

proof fn lemma_tag_chunk(tags: Seq<(Seq<u8>, Seq<u8>)>)
    requires
        tags_bytes(tags).len() <= u32::MAX,
        forall|i: int| 0 <= i < tags.len() ==> tag_safe(#[trigger] tags[i].0, tags[i].1),
        is_utf8(tags_bytes(tags)),
    ensures
        tag_chunk_spec(tags_chunk_name() + le_bytes(tags_bytes(tags).len() as u32) + tags_bytes(tags)) == Ok::<
            Seq<(Seq<u8>, Seq<u8>)>,
            TlgError,
        >(dedup_last(tags)),
{
    let tb = tags_bytes(tags);
    let rest = tags_chunk_name() + le_bytes(tb.len() as u32) + tb;
    lemma_sds_parts(Seq::empty(), tb);
    assert(rest.subrange(8, 8 + tb.len() as int) =~= tb);
    lemma_tags_roundtrip(tags);
}

/// The stream an encoder wrote is read as its own kind, and reads back as
/// the image.
spec fn encoded_stream(e: TlgEncoder, raw: Seq<u8>, info: ImageInfo) -> bool {
    &&& raw.len() >= 11
    &&& raw.take(11) != sds_magic()
    &&& stream_info(raw) == Ok::<ImageInfo, TlgError>(info)
    &&& (e is Tlg5) == stream_is_tlg5(raw)
}

proof fn lemma_encoded_stream(e: TlgEncoder, raw: Seq<u8>, info: ImageInfo)
    requires
        encoded_ok(e, raw),
        info == (ImageInfo { width: e.spec_width(), height: e.spec_height(), pixel_layout: e.spec_layout() }),
        e is Tlg6 ==> (e.spec_width() > 0 || e.spec_height() == 0) && e.spec_width() * e.spec_height() * 4
            <= usize::MAX,
    ensures
        encoded_stream(e, raw, info),
{
    if e is Tlg5 {
        assert(tlg5_decode_spec(raw) is Ok);
        assert(raw.take(11) == tlg5_magic());
        assert(raw.take(11)[3] != sds_magic()[3]);
    } else {
        assert(raw.take(11) == tlg6_magic());
        assert(raw.take(11)[3] != sds_magic()[3]);
        assert(raw.take(11)[3] != tlg5_magic()[3]);
    }
}


/// Decodes one stream, TLG5 where it opens with the TLG5 magic, else TLG6.
fn decode_stream(img: Vec<u8>) -> (r: Result<(Vec<u8>, ImageInfo), TlgError>)
    ensures
        match stream_info(img@) {
            Ok(info) => r matches Ok((px, i)) && i == info && px@.len() == info.width * info.height * spec_colors(
                info.pixel_layout,
            ) && (stream_is_tlg5(img@) ==> tlg5_decode_spec(img@) == Ok::<(Seq<u8>, ImageInfo), TlgError>((px@, info))),
            Err(e) => r == Err::<(Vec<u8>, ImageInfo), TlgError>(e),
        },
        !stream_is_tlg5(img@) ==> (r matches Ok((px, _)) ==> px@ == tlg6_pixels(img@)),
        !stream_is_tlg5(img@) ==> forall|im: Seq<u8>| #[trigger] tlg6_coded(img@, im) ==> (r matches Ok((px, info)) && px@
            == im.take(info.width * info.height * spec_colors(info.pixel_layout))),
{
    if img.len() >= 11 && has_tlg5_magic(img.as_slice()) {
        let dec = match Tlg5Decoder::from_data(img) {
            Ok(d) => d,
            Err(e) => {
                return Err(e);
            },
        };
        dec.decode()
    } else {
        proof {
            crate::tlg6::decode::lemma_coded_accepts(img@);
        }
        let dec = match Tlg6Decoder::from_data(img) {
            Ok(d) => d,
            Err(e) => {
                return Err(e);
            },
        };
        dec.decode()
    }
}

/// A reader over the bytes of a TLG file.
pub struct TlgReader {
    data: Vec<u8>,
}

impl TlgReader {
    /// The bytes read.
    pub closed spec fn bytes(&self) -> Seq<u8> {
        self.data@
    }

    /// A reader over `data`.
    pub fn new(data: Vec<u8>) -> (r: TlgReader)
        ensures
            r.bytes() == data@,
    {
        TlgReader { data }
    }

    /// A reader over the bytes that were read from a source.
    pub fn from_reader(data: Vec<u8>) -> (r: TlgReader)
        ensures
            r.bytes() == data@,
    {
        TlgReader::new(data)
    }

    /// Reads the image and its tags (see `tlg_read_spec`): the raw pixels
    /// (`colors` bytes per pixel, rows top to bottom, red first), the
    /// image's description and the tags of the tag block, each key once
    /// with the value given last for it, in the order keys first occur.  A
    /// TLG5 stream's pixels are those `tlg5_decode_spec` gives, a TLG6
    /// stream's those `tlg6_pixels` gives.
    pub fn read(self) -> (r: Result<(Vec<u8>, ImageInfo, Vec<(Vec<u8>, Vec<u8>)>), TlgError>)
        ensures
            match tlg_read_spec(self.bytes()) {
                Ok((info, t)) => r matches Ok((px, i, tags)) && i == info && tag_seq(tags@) == t && px@.len()
                    == info.width * info.height * spec_colors(info.pixel_layout) && (stream_is_tlg5(
                    stream_of(self.bytes()),
                ) ==> tlg5_decode_spec(stream_of(self.bytes())) == Ok::<(Seq<u8>, ImageInfo), TlgError>(
                    (px@, info),
                )),
                Err(e) => r == Err::<(Vec<u8>, ImageInfo, Vec<(Vec<u8>, Vec<u8>)>), TlgError>(e),
            },
            !stream_is_tlg5(stream_of(self.bytes())) ==> (r matches Ok((px, _, _)) ==> px@ == tlg6_pixels(
                stream_of(self.bytes()),
            )),
            tlg_read_spec(self.bytes()) is Ok && !stream_is_tlg5(stream_of(self.bytes())) ==> forall|im: Seq<u8>|
                #[trigger] tlg6_coded(stream_of(self.bytes()), im) ==> (r matches Ok((px, info, _)) && px@ == im.take(
                    info.width * info.height * spec_colors(info.pixel_layout),
                )),
    {
        let data = self.data;
        let ghost d = data@;
        if data.len() < 11 {
            return Err(TlgError::UnexpectedEof);
        }
        if has_sds_magic(data.as_slice()) {
            if data.len() < 15 {
                return Err(TlgError::UnexpectedEof);
            }
            let raw_size = read_u32_at(data.as_slice(), 11) as usize;
            let end = if data.len() - 15 >= raw_size {
                15 + raw_size
            } else {
                data.len()
            };
            let img = copy_range(data.as_slice(), 15, end);
            if img.len() < 11 {
                return Err(TlgError::UnexpectedEof);
            }
            let (px, info) = match decode_stream(img) {
                Ok(pi) => pi,
                Err(e) => {
                    return Err(e);
                },
            };
            let ghost rest = d.skip(end as int);
            if data.len() - end < 8 {
                return Err(TlgError::UnexpectedEof);
            }
            let size = read_u32_at(data.as_slice(), end + 4) as usize;
            proof {
                assert(rest[4] == d[end + 4] && rest[5] == d[end + 5] && rest[6] == d[end + 6] && rest[7] == d[end + 7]);
                assert(le_u32_at(rest, 4) == size);
            }
            if data.len() - end - 8 < size {
                return Err(TlgError::UnexpectedEof);
            }
            let block = copy_range(data.as_slice(), end + 8, end + 8 + size);
            assert(block@ =~= rest.subrange(8, 8 + size as int));
            let tags = match data_to_tags(block.as_slice()) {
                Ok(t) => t,
                Err(e) => {
                    return Err(e);
                },
            };
            Ok((px, info, tags))
        } else {
            let (px, info) = match decode_stream(data) {
                Ok(pi) => pi,
                Err(e) => {
                    return Err(e);
                },
            };
            let tags: Vec<(Vec<u8>, Vec<u8>)> = Vec::new();
            assert(tag_seq(tags@) =~= Seq::<(Seq<u8>, Seq<u8>)>::empty());
            Ok((px, info, tags))
        }
    }
}

} // verus!
