use tlg::reader::TlgReader;
use tlg::tags::{data_to_tags, parse_tags, tags_to_data};
use tlg::writer::{TlgEncoder, TlgWrite};
use tlg::tlg5::Tlg5Encoder;
use tlg::{ImageInfo, PixelLayout, TlgError, TlgType};

fn tag(k: &str, v: &str) -> (Vec<u8>, Vec<u8>) {
    (k.as_bytes().to_vec(), v.as_bytes().to_vec())
}

#[test]
fn tags_block_format() {
    let tags = vec![tag("for", "tlg-rs"), tag("mode", "")];
    assert_eq!(tags_to_data(&tags), b"3:for=6:tlg-rs,4:mode=0:,".to_vec());
    assert!(tags_to_data(&vec![]).is_empty());
}

#[test]
fn tags_roundtrip() {
    let tags = vec![tag("for", "tlg-rs"), tag("名前", "值:=x"), tag("", "")];
    let block = tags_to_data(&tags);
    assert_eq!(data_to_tags(&block), Ok(tags));
}

#[test]
fn tags_parse_skips_malformed_fields() {
    // A field without '=', one whose key length is wrong, one with no ':'
    // in the value, and empty fields are skipped.
    let block = b",abc,2:abc=1:x,3:abc=x,3:key=3:val,,".to_vec();
    assert_eq!(data_to_tags(&block), Ok(vec![tag("key", "val")]));
    // A later tag with the same key replaces the earlier one's value, in
    // the earlier one's place.
    let block = b"1:a=1:x,1:b=1:z,1:a=1:y,".to_vec();
    assert_eq!(data_to_tags(&block), Ok(vec![tag("a", "y"), tag("b", "z")]));
}

#[test]
fn tags_parse_errors() {
    assert_eq!(data_to_tags(&[0xff, 0xfe]), Err(TlgError::TagsNotUtf8));
    assert_eq!(data_to_tags(b"x:abc=1:v,"), Err(TlgError::TagLengthNotNumber));
    assert_eq!(data_to_tags(b"3:abc=y:v,"), Err(TlgError::TagLengthNotNumber));
    assert_eq!(data_to_tags(b""), Ok(vec![]));
}

fn gray_4x3() -> Vec<u8> {
    (0..12u8).map(|i| i * 20).collect()
}

#[test]
fn write_read_with_tags() {
    for ty in [TlgType::Tlg5, TlgType::Tlg6].iter() {
        let tags = vec![tag("for", "tlg-rs"), tag("author", "someone")];
        let w = TlgWrite::from_gray(gray_4x3(), tags.clone(), 4, 3, *ty);
        let out = w.encode().unwrap();
        assert_eq!(&out[..11], b"TLG0.0\x00sds\x1a");
        let (px, info, got) = TlgReader::new(out).read().unwrap();
        assert_eq!(info, ImageInfo { width: 4, height: 3, pixel_layout: PixelLayout::Gray });
        assert_eq!(px, gray_4x3());
        assert_eq!(got, tags);
    }
}

#[test]
fn write_read_without_tags() {
    let data: Vec<u8> = (0..5 * 4 * 3).map(|i| (i * 7) as u8).collect();
    for ty in [TlgType::Tlg5, TlgType::Tlg6].iter() {
        let w = TlgWrite::from_rgb(data.clone(), vec![], 5, 4, *ty);
        let out = w.encode().unwrap();
        let magic: &[u8] = if *ty == TlgType::Tlg5 { b"TLG5.0\x00raw\x1a" } else { b"TLG6.0\x00raw\x1a" };
        assert_eq!(&out[..11], magic);
        let (px, info, got) = TlgReader::from_reader(out).read().unwrap();
        assert_eq!(info, ImageInfo { width: 5, height: 4, pixel_layout: PixelLayout::Rgb });
        assert_eq!(px, data);
        assert!(got.is_empty());
    }
}

#[test]
fn writer_getters_and_encode_to() {
    let tags = vec![tag("k", "v")];
    let w = TlgWrite::from_raw(vec![1, 2, 3, 4, 5, 6, 7, 8], tags.clone(), 1, 2, PixelLayout::Rgba, TlgType::Tlg5);
    assert_eq!((w.width(), w.height(), w.pixel_layout()), (1, 2, PixelLayout::Rgba));
    assert_eq!(w.tags(), &tags);
    assert!(w.can_encode());
    let mut out = vec![9u8, 9];
    w.encode_to(&mut out).unwrap();
    assert_eq!(&out[..2], &[9, 9]);
    assert_eq!(out[2..].to_vec(), w.encode().unwrap());
    let w = TlgWrite::from_rgba(vec![0; 8], vec![], 1, 2, TlgType::Tlg6);
    assert_eq!(w.pixel_layout(), PixelLayout::Rgba);
}

#[test]
fn encoder_enum() {
    let e = TlgEncoder::Tlg5(Tlg5Encoder::from_gray(vec![3; 6], 3, 2));
    assert_eq!((e.width(), e.height(), e.pixel_layout()), (3, 2, PixelLayout::Gray));
    assert!(e.can_encode());
    let mut out = Vec::new();
    e.encode_to(&mut out).unwrap();
    assert_eq!(out, e.encode().unwrap());
    let short = TlgEncoder::Tlg5(Tlg5Encoder::from_gray(vec![3; 5], 3, 2));
    assert!(!short.can_encode());
}

#[test]
fn container_layout() {
    let w = TlgWrite::from_gray(vec![5], vec![tag("a", "b")], 1, 1, TlgType::Tlg5);
    let out = w.encode().unwrap();
    let raw = TlgWrite::from_gray(vec![5], vec![], 1, 1, TlgType::Tlg5).encode().unwrap();
    let n = raw.len();
    assert_eq!(u32::from_le_bytes([out[11], out[12], out[13], out[14]]) as usize, n);
    assert_eq!(&out[15..15 + n], raw.as_slice());
    assert_eq!(&out[15 + n..15 + n + 4], b"tags");
    let block = b"1:a=1:b,";
    assert_eq!(u32::from_le_bytes([out[19 + n], out[20 + n], out[21 + n], out[22 + n]]) as usize, block.len());
    assert_eq!(&out[23 + n..], block);
}

#[test]
fn reader_errors() {
    assert_eq!(TlgReader::new(b"TLG".to_vec()).read().unwrap_err(), TlgError::UnexpectedEof);
    assert_eq!(TlgReader::new(b"TLG0.0\x00sds\x1a\x01".to_vec()).read().unwrap_err(), TlgError::UnexpectedEof);
    // A container whose stream is shorter than a magic.
    let mut d = b"TLG0.0\x00sds\x1a".to_vec();
    d.extend_from_slice(&5u32.to_le_bytes());
    d.extend_from_slice(b"TLG5.");
    assert_eq!(TlgReader::new(d).read().unwrap_err(), TlgError::UnexpectedEof);
    // Plain data that is neither stream: read as TLG6, which refuses it.
    assert_eq!(TlgReader::new(vec![0u8; 40]).read().unwrap_err(), TlgError::BadMagic);
    assert_eq!(TlgReader::new(vec![0u8; 20]).read().unwrap_err(), TlgError::DataTooShort);
    // A container without its tag chunk.
    let w = TlgWrite::from_gray(vec![5], vec![tag("a", "b")], 1, 1, TlgType::Tlg5);
    let out = w.encode().unwrap();
    let raw_len = u32::from_le_bytes([out[11], out[12], out[13], out[14]]) as usize;
    let cut = out[..15 + raw_len + 6].to_vec();
    assert_eq!(TlgReader::new(cut).read().unwrap_err(), TlgError::UnexpectedEof);
    let cut = out[..out.len() - 1].to_vec();
    assert_eq!(TlgReader::new(cut).read().unwrap_err(), TlgError::UnexpectedEof);
    // A tag block that is not UTF-8.
    let mut bad = out.clone();
    let last = bad.len() - 2;
    bad[last] = 0xff;
    assert_eq!(TlgReader::new(bad).read().unwrap_err(), TlgError::TagsNotUtf8);
}

#[test]
fn reader_container_stream_cut_at_end() {
    // The stream length runs past the data: the stream is what is there,
    // and the tag chunk is then missing.
    let raw = TlgWrite::from_gray(vec![5], vec![], 1, 1, TlgType::Tlg5).encode().unwrap();
    let mut d = b"TLG0.0\x00sds\x1a".to_vec();
    d.extend_from_slice(&1000u32.to_le_bytes());
    d.extend_from_slice(&raw);
    assert_eq!(TlgReader::new(d).read().unwrap_err(), TlgError::UnexpectedEof);
}

#[test]
fn write_read_repeated_key() {
    let tags = vec![tag("k", "first"), tag("other", "o"), tag("k", "second")];
    let w = TlgWrite::from_gray(gray_4x3(), tags, 4, 3, TlgType::Tlg5);
    let out = w.encode().unwrap();
    let (_, _, got) = TlgReader::new(out).read().unwrap();
    assert_eq!(got, vec![tag("k", "second"), tag("other", "o")]);
}

#[test]
fn parse_tags_with_flag() {
    let block = b"1:a=1:x,1:a=1:y,".to_vec();
    assert_eq!(parse_tags(&block, true), Ok(vec![tag("a", "y")]));
    assert_eq!(parse_tags(&block, false), Err(TlgError::TagsNotUtf8));
    // With the flag set the bytes are parsed as they are; a field without '=' is skipped.
    assert_eq!(parse_tags(&[0xff], true), Ok(vec![]));
    assert_eq!(parse_tags(b"x:a=1:v,", true), Err(TlgError::TagLengthNotNumber));
}

#[test]
fn from_raw_writes_like_from_rgb() {
    let data: Vec<u8> = (0..36u8).map(|i| i.wrapping_mul(37)).collect();
    let tags = vec![tag("k", "v")];
    for ty in [TlgType::Tlg5, TlgType::Tlg6].iter() {
        let a = TlgWrite::from_raw(data.clone(), tags.clone(), 4, 3, PixelLayout::Rgb, *ty);
        let b = TlgWrite::from_rgb(data.clone(), tags.clone(), 4, 3, *ty);
        assert_eq!(a.pixel_layout(), PixelLayout::Rgb);
        assert_eq!((a.width(), a.height()), (4, 3));
        assert_eq!(a.encode().unwrap(), b.encode().unwrap());
    }
}
