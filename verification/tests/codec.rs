use tlg::tlg5::{Tlg5Decoder, Tlg5Encoder};
use tlg::tlg6::{Tlg6Decoder, Tlg6Encoder};
use tlg::{ImageInfo, PixelLayout, TlgError};

const TLG5_MAGIC: &[u8; 11] = b"TLG5.0\x00raw\x1a";
const TLG6_MAGIC: &[u8; 11] = b"TLG6.0\x00raw\x1a";

fn tlg5_roundtrip(enc: Tlg5Encoder, data: &[u8], info: ImageInfo) {
    let encoded = enc.encode().unwrap();
    assert_eq!(&encoded[..11], TLG5_MAGIC);
    let (decoded, got) = Tlg5Decoder::from_data(encoded).unwrap().decode().unwrap();
    assert_eq!(got, info);
    assert_eq!(decoded, data);
}

fn tlg6_roundtrip(enc: Tlg6Encoder, data: &[u8], info: ImageInfo) {
    let encoded = enc.encode().unwrap();
    assert_eq!(&encoded[..11], TLG6_MAGIC);
    let (decoded, got) = Tlg6Decoder::from_data(encoded).unwrap().decode().unwrap();
    assert_eq!(got.width, info.width);
    assert_eq!(got.height, info.height);
    assert_eq!(got, info);
    assert_eq!(decoded, data, "roundtrip mismatch");
}

#[test]
fn roundtrip_gray() {
    let width = 7;
    let height = 5;
    let data = (0..width * height).map(|i| (i as u8).wrapping_mul(17)).collect::<Vec<_>>();
    let info = ImageInfo { width, height, pixel_layout: PixelLayout::Gray };
    tlg5_roundtrip(Tlg5Encoder::from_gray(data.clone(), width, height), &data, info);
}

fn rgb_data(width: u32, height: u32) -> Vec<u8> {
    let mut data = Vec::with_capacity((width * height * 3) as usize);
    for y in 0..height {
        for x in 0..width {
            data.push((x * 19 + y * 7) as u8);
            data.push((x * 5 + y * 23) as u8);
            data.push((x * 29 + y * 11) as u8);
        }
    }
    data
}

#[test]
fn roundtrip_rgb() {
    let width = 9;
    let height = 6;
    let data = rgb_data(width, height);
    let info = ImageInfo { width, height, pixel_layout: PixelLayout::Rgb };
    tlg5_roundtrip(Tlg5Encoder::from_rgb(data.clone(), width, height), &data, info);
}

#[test]
fn roundtrip_rgba() {
    let width = 8;
    let height = 7;
    let mut data = Vec::with_capacity((width * height * 4) as usize);
    for y in 0..height {
        for x in 0..width {
            data.push((x * 31 + y * 3) as u8);
            data.push((x * 13 + y * 17) as u8);
            data.push((x * 7 + y * 27) as u8);
            data.push(255u16.saturating_sub((x * 9 + y * 5) as u16) as u8);
        }
    }
    let info = ImageInfo { width, height, pixel_layout: PixelLayout::Rgba };
    tlg5_roundtrip(Tlg5Encoder::from_rgba(data.clone(), width, height), &data, info);
}

fn image_8x8(layout: PixelLayout) -> Vec<u8> {
    let mut data = Vec::new();
    for y in 0..8u32 {
        for x in 0..8u32 {
            match layout {
                PixelLayout::Gray => data.push((x + y * 8) as u8),
                PixelLayout::Rgb => {
                    data.push((x * 17) as u8);
                    data.push((y * 17) as u8);
                    data.push(128);
                },
                PixelLayout::Rgba => {
                    data.push((x * 32) as u8);
                    data.push((y * 32) as u8);
                    data.push(128);
                    data.push(255);
                },
            }
        }
    }
    data
}

#[test]
fn roundtrip_gray_8x8() {
    let data = image_8x8(PixelLayout::Gray);
    let info = ImageInfo { width: 8, height: 8, pixel_layout: PixelLayout::Gray };
    tlg6_roundtrip(Tlg6Encoder::from_gray(data.clone(), 8, 8), &data, info);
}

#[test]
fn roundtrip_rgb_8x8() {
    let data = image_8x8(PixelLayout::Rgb);
    let info = ImageInfo { width: 8, height: 8, pixel_layout: PixelLayout::Rgb };
    tlg6_roundtrip(Tlg6Encoder::from_rgb(data.clone(), 8, 8), &data, info);
}

#[test]
fn roundtrip_rgba_8x8() {
    let data = image_8x8(PixelLayout::Rgba);
    let info = ImageInfo { width: 8, height: 8, pixel_layout: PixelLayout::Rgba };
    tlg6_roundtrip(Tlg6Encoder::from_rgba(data.clone(), 8, 8), &data, info);
}

#[test]
fn test_encode_small_rgb() {
    let mut data = Vec::new();
    for y in 0..16u32 {
        for x in 0..16u32 {
            data.push((x * 17) as u8);
            data.push((y * 17) as u8);
            data.push(128);
        }
    }
    let encoder = Tlg6Encoder::from_rgb(data, 16, 16);
    let result = encoder.encode();
    assert!(result.is_ok(), "encoding should succeed");
    let data = result.unwrap();
    assert!(data.len() > 22, "should have at least header bytes");
    assert_eq!(&data[..11], TLG6_MAGIC.as_slice(), "should start with TLG6 magic");
}

#[test]
fn test_encode_small_gray() {
    let mut data = Vec::new();
    for y in 0..8u32 {
        for x in 0..8u32 {
            data.push((x + y) as u8);
        }
    }
    let encoder = Tlg6Encoder::from_gray(data, 8, 8);
    let result = encoder.encode();
    assert!(result.is_ok(), "gray encoding should succeed");
}

#[test]
fn test_encode_small_rgba() {
    let encoder = Tlg6Encoder::from_rgba(image_8x8(PixelLayout::Rgba), 8, 8);
    let result = encoder.encode();
    assert!(result.is_ok(), "rgba encoding should succeed");
}

#[test]
fn tlg6_roundtrip_odd_sizes() {
    for &(w, h) in [(1u32, 1u32), (9, 3), (13, 17), (8, 9), (17, 8), (3, 20)].iter() {
        for layout in [PixelLayout::Gray, PixelLayout::Rgb, PixelLayout::Rgba].iter() {
            let c = layout.colors();
            let mut data = Vec::new();
            for i in 0..(w * h) as usize * c {
                data.push(((i * 37 + i / 5 * 11) % 256) as u8);
            }
            let info = ImageInfo { width: w, height: h, pixel_layout: *layout };
            tlg6_roundtrip(Tlg6Encoder::from_raw(data.clone(), *layout, w, h), &data, info);
        }
    }
}

#[test]
fn tlg5_roundtrip_odd_sizes() {
    for &(w, h) in [(1u32, 1u32), (5, 4), (3, 9), (30, 2)].iter() {
        for layout in [PixelLayout::Gray, PixelLayout::Rgb, PixelLayout::Rgba].iter() {
            let c = layout.colors();
            let mut data = Vec::new();
            for i in 0..(w * h) as usize * c {
                data.push(((i * 53 + i / 3) % 256) as u8);
            }
            let info = ImageInfo { width: w, height: h, pixel_layout: *layout };
            tlg5_roundtrip(Tlg5Encoder::from_raw(data.clone(), *layout, w, h), &data, info);
        }
    }
}

#[test]
fn tlg6_header_fields() {
    let enc = Tlg6Encoder::from_rgb(rgb_data(10, 3), 10, 3);
    let out = enc.encode().unwrap();
    assert_eq!(out[11], 3);
    assert_eq!(u32::from_le_bytes([out[15], out[16], out[17], out[18]]), 10);
    assert_eq!(u32::from_le_bytes([out[19], out[20], out[21], out[22]]), 3);
}

#[test]
fn tlg5_header_fields() {
    let enc = Tlg5Encoder::from_rgb(rgb_data(10, 9), 10, 9);
    let out = enc.encode().unwrap();
    assert_eq!(out[11], 3);
    assert_eq!(u32::from_le_bytes([out[12], out[13], out[14], out[15]]), 10);
    assert_eq!(u32::from_le_bytes([out[16], out[17], out[18], out[19]]), 9);
    assert_eq!(u32::from_le_bytes([out[20], out[21], out[22], out[23]]), 4);
}

#[test]
fn encoder_getters() {
    let e5 = Tlg5Encoder::from_gray(vec![1, 2, 3, 4, 5, 6], 3, 2);
    assert_eq!((e5.width(), e5.height(), e5.pixel_layout(), e5.data_len()), (3, 2, PixelLayout::Gray, 6));
    let e6 = Tlg6Encoder::from_rgba(vec![0; 16], 2, 2);
    assert_eq!((e6.width(), e6.height(), e6.pixel_layout(), e6.data_len()), (2, 2, PixelLayout::Rgba, 16));
}

#[test]
fn tlg5_decode_errors() {
    let ok = Tlg5Encoder::from_gray(vec![7; 12], 4, 3).encode().unwrap();
    let dec = |d: Vec<u8>| Tlg5Decoder::from_data(d).unwrap().decode().unwrap_err();
    assert_eq!(dec(ok[..5].to_vec()), TlgError::UnexpectedEof);
    let mut bad = ok.clone();
    bad[0] = b'X';
    assert_eq!(dec(bad), TlgError::BadMagic);
    let mut bad = ok.clone();
    bad[11] = 2;
    assert_eq!(dec(bad), TlgError::UnsupportedColors);
    let mut bad = ok.clone();
    bad[20] = 8;
    assert_eq!(dec(bad), TlgError::UnsupportedBlockHeight);
    assert_eq!(dec(ok[..ok.len() - 1].to_vec()), TlgError::UnexpectedEof);
    // The block table says the block is one byte longer than it is.
    let mut bad = ok.clone();
    bad[24] = bad[24].wrapping_add(1);
    bad.push(0);
    assert_eq!(dec(bad), TlgError::BlockSizeMismatch);
    // The compression flag of the first plane.
    let mut bad = ok.clone();
    bad[28] = 5;
    assert_eq!(dec(bad), TlgError::InvalidCompressionFlag);
}

/// A 1x1 gray TLG5 stream whose one plane is stored (flag 1) with the given bytes.
fn stored_1x1(plane: &[u8]) -> Vec<u8> {
    let mut d = TLG5_MAGIC.to_vec();
    d.push(1);
    d.extend_from_slice(&1u32.to_le_bytes());
    d.extend_from_slice(&1u32.to_le_bytes());
    d.extend_from_slice(&4u32.to_le_bytes());
    d.extend_from_slice(&(5 + plane.len() as u32).to_le_bytes());
    d.push(1);
    d.extend_from_slice(&(plane.len() as u32).to_le_bytes());
    d.extend_from_slice(plane);
    d
}

#[test]
fn tlg5_stored_plane() {
    let (px, info) = Tlg5Decoder::from_data(stored_1x1(&[42])).unwrap().decode().unwrap();
    assert_eq!(px, vec![42]);
    assert_eq!(info, ImageInfo { width: 1, height: 1, pixel_layout: PixelLayout::Gray });
    let e = Tlg5Decoder::from_data(stored_1x1(&[42, 43])).unwrap().decode().unwrap_err();
    assert_eq!(e, TlgError::PlaneSizeMismatch);
}

#[test]
fn tlg6_decode_errors() {
    let ok = Tlg6Encoder::from_gray(vec![7; 12], 4, 3).encode().unwrap();
    assert_eq!(Tlg6Decoder::from_data(ok[..20].to_vec()).err(), Some(TlgError::DataTooShort));
    let dec = |d: Vec<u8>| Tlg6Decoder::from_data(d).unwrap().decode().unwrap_err();
    let mut bad = ok.clone();
    bad[3] = b'5';
    assert_eq!(dec(bad), TlgError::BadMagic);
    let mut bad = ok.clone();
    bad[11] = 2;
    assert_eq!(dec(bad), TlgError::UnsupportedColors);
    assert_eq!(dec(ok[..29].to_vec()), TlgError::UnexpectedEof);
    assert_eq!(dec(ok[..ok.len() - 1].to_vec()), TlgError::UnexpectedEof);
    // The coding method in the two high bits of the first channel's bit length.
    let fs = u32::from_le_bytes([ok[27], ok[28], ok[29], ok[30]]) as usize;
    let mut bad = ok.clone();
    bad[31 + fs + 3] |= 0x40;
    assert_eq!(dec(bad), TlgError::UnsupportedEntropyMethod);
    // A filter table with no code in it.
    let mut bad = ok[..27].to_vec();
    bad.extend_from_slice(&[0, 0, 0, 0]);
    bad.extend_from_slice(&ok[31 + fs..]);
    assert_eq!(dec(bad), TlgError::FilterTableTooShort);
}

#[test]
fn tlg6_decode_empty_image() {
    let out = Tlg6Encoder::from_rgb(vec![], 0, 0).encode().unwrap();
    let (px, info) = Tlg6Decoder::from_data(out).unwrap().decode().unwrap();
    assert!(px.is_empty());
    assert_eq!(info, ImageInfo { width: 0, height: 0, pixel_layout: PixelLayout::Rgb });
}

#[test]
fn tlg6_max_bit_length_field() {
    let enc = Tlg6Encoder::from_rgb(rgb_data(10, 11), 10, 11);
    let out = enc.encode().unwrap();
    let fs = u32::from_le_bytes([out[27], out[28], out[29], out[30]]) as usize;
    let mut pos = 31 + fs;
    let mut max = 0u32;
    let mut chunks = 0;
    while pos < out.len() {
        let bl = u32::from_le_bytes([out[pos], out[pos + 1], out[pos + 2], out[pos + 3]]);
        if bl > max {
            max = bl;
        }
        pos += 4 + ((bl as usize) + 7) / 8;
        chunks += 1;
    }
    assert_eq!(pos, out.len());
    assert_eq!(chunks, 2 * 3);
    assert!(max > 0);
    assert_eq!(u32::from_le_bytes([out[23], out[24], out[25], out[26]]), max);
}

#[test]
fn tlg6_gray_filter_codes() {
    let data: Vec<u8> = (0..200u32).map(|i| (i * 7 % 251) as u8).collect();
    let enc = Tlg6Encoder::from_gray(data, 20, 10);
    let out = enc.encode().unwrap();
    let fs = u32::from_le_bytes([out[27], out[28], out[29], out[30]]) as usize;
    let text = tlg::tlg6::decode::lzss_text();
    let mut dec = tlg::slide::SlideDecoder::new();
    dec.init_with_text(&text);
    let codes = dec.decode(&out[31..31 + fs]);
    assert_eq!(codes, vec![0u8; 6]);
}

#[test]
fn tlg5_one_gray_pixel_bytes() {
    // Coding the one-byte plane gives two bytes, not fewer, so it is stored.
    let out = Tlg5Encoder::from_gray(vec![200], 1, 1).encode().unwrap();
    let mut expected = TLG5_MAGIC.to_vec();
    expected.extend_from_slice(&[1, 1, 0, 0, 0, 1, 0, 0, 0, 4, 0, 0, 0, 6, 0, 0, 0, 1, 1, 0, 0, 0, 200]);
    assert_eq!(out, expected);
}

#[test]
fn tlg5_flat_plane_is_compressed() {
    // A 64x4 gray image of one value: each row difference plane is mostly
    // zeros, which the coder shortens, so the plane is stored under flag 0.
    let width = 64u32;
    let height = 4u32;
    let data = vec![9u8; (width * height) as usize];
    let out = Tlg5Encoder::from_gray(data.clone(), width, height).encode().unwrap();
    assert_eq!(out[24 + 4], 0);
    let size = u32::from_le_bytes([out[24], out[25], out[26], out[27]]) as usize;
    assert!(size < 5 + (width * height) as usize);
    assert_eq!(out.len(), 28 + size);
    let (decoded, _) = Tlg5Decoder::from_data(out).unwrap().decode().unwrap();
    assert_eq!(decoded, data);
}

#[test]
fn encoders_append_to_existing_bytes() {
    let data: Vec<u8> = (0..48u32).map(|i| (i * 5) as u8).collect();
    let prefix = vec![7u8, 8, 9];
    let e5 = Tlg5Encoder::from_rgb(data.clone(), 4, 4);
    let mut out5 = prefix.clone();
    e5.encode_to(&mut out5).unwrap();
    assert_eq!(out5, [prefix.clone(), e5.encode().unwrap()].concat());
    let e6 = Tlg6Encoder::from_rgb(data, 4, 4);
    let mut out6 = prefix.clone();
    e6.encode_to(&mut out6).unwrap();
    assert_eq!(out6, [prefix, e6.encode().unwrap()].concat());
}
