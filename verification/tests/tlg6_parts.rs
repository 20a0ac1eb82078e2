use tlg::tlg6::bitstream::{TLG6BitReader, TLG6BitStream};
use tlg::tlg6::filter::{apply_color_filter, detect_color_filter, inverse_color_filter};
use tlg::tlg6::golomb::{
    compress_values_golomb, decode_golomb_channel, gamma_bit_length, golomb_param, golomb_table, TryCompress,
    GOLOMB_N_COUNT,
};
use tlg::tlg6::packed::{avg_predict_add, make_gt_mask, med2, med_predict_add, packed_bytes_add};
use tlg::tlg6::predict::med_predict;

#[test]
fn test_bitstream() {
    let mut bs = TLG6BitStream::new();
    bs.put_1bit(true);
    bs.put_1bit(false);
    bs.put_value(5, 3);
    let data = bs.take_data();
    assert!(!data.is_empty());
}

#[test]
fn test_bitreader_gamma() {
    let mut bs = TLG6BitStream::new();
    bs.put_gamma(1);
    bs.put_gamma(2);
    bs.put_gamma(5);
    let data = bs.take_data();

    let mut br = TLG6BitReader::new(&data);
    assert_eq!(br.get_gamma(), 1);
    assert_eq!(br.get_gamma(), 2);
    assert_eq!(br.get_gamma(), 5);
}

#[test]
fn test_bitreader_roundtrip() {
    let mut bs = TLG6BitStream::new();
    bs.put_1bit(true);
    bs.put_1bit(false);
    bs.put_value(0x55, 8);
    bs.put_gamma(10);
    bs.put_value(0x123, 12);
    let data = bs.take_data();

    let mut br = TLG6BitReader::new(&data);
    assert_eq!(br.get_1bit(), true);
    assert_eq!(br.get_1bit(), false);
    assert_eq!(br.get_value(8), 0x55);
    assert_eq!(br.get_gamma(), 10);
    assert_eq!(br.get_value(12), 0x123);
}

#[test]
fn bitstream_exact_bytes() {
    // Bits are packed least significant first: 1, 0, then 101.
    let mut bs = TLG6BitStream::new();
    bs.put_1bit(true);
    bs.put_1bit(false);
    bs.put_value(5, 3);
    assert_eq!(bs.get_bit_length(), 5);
    assert_eq!(bs.take_data(), vec![0b10101]);
    // Taking the data leaves the stream empty.
    assert_eq!(bs.get_bit_length(), 0);
    assert!(bs.take_data().is_empty());
}

#[test]
fn bitstream_gamma_bytes() {
    // Gamma code of 5 (binary 101): two zeros, a one, then the bits below
    // the top one, least significant first (1, then 0): 0, 0, 1, 1, 0.
    let mut bs = TLG6BitStream::new();
    bs.put_gamma(5);
    assert_eq!(bs.get_bit_length(), 5);
    assert_eq!(bs.take_data(), vec![0b01100]);
}

#[test]
fn bitreader_value_roundtrip() {
    let values: [(u32, u32); 6] = [(0, 1), (1, 1), (0x3ff, 10), (0x1234567, 25), (7, 3), (0x7fffffff, 31)];
    let mut bs = TLG6BitStream::new();
    for (v, len) in values.iter() {
        bs.put_value(*v, *len);
    }
    let data = bs.take_data();
    let mut br = TLG6BitReader::new(&data);
    for (v, len) in values.iter() {
        assert_eq!(br.get_value(*len), *v);
    }
}

#[test]
fn bitreader_gamma_roundtrip_many() {
    let mut bs = TLG6BitStream::new();
    for v in 1..300u32 {
        bs.put_gamma(v);
    }
    bs.put_gamma(1 << 20);
    let data = bs.take_data();
    let mut br = TLG6BitReader::new(&data);
    for v in 1..300u32 {
        assert_eq!(br.get_gamma(), v);
    }
    assert_eq!(br.get_gamma(), 1 << 20);
}

#[test]
fn test_color_filter_identity() {
    let mut b = vec![10i8, 20, 30];
    let mut g = vec![5i8, 15, 25];
    let mut r = vec![0i8, 1, 2];
    apply_color_filter(&mut b, &mut g, &mut r, 3, 0);
    assert_eq!(b, vec![10, 20, 30]);
    assert_eq!(g, vec![5, 15, 25]);
    assert_eq!(r, vec![0, 1, 2]);
}

#[test]
fn color_filter_one_subtracts_green() {
    let mut b = vec![10i8, -128];
    let mut g = vec![5i8, 1];
    let mut r = vec![0i8, 127];
    apply_color_filter(&mut b, &mut g, &mut r, 2, 1);
    assert_eq!(b, vec![5, 127]);
    assert_eq!(g, vec![5, 1]);
    assert_eq!(r, vec![-5, 126]);
}

#[test]
fn color_filter_inverse_all_codes() {
    for code in 0..16u32 {
        for &(b0, g0, r0) in [(10i8, 20i8, 30i8), (-128, 127, 0), (55, -3, -77), (127, 127, -128)].iter() {
            let mut b = vec![b0];
            let mut g = vec![g0];
            let mut r = vec![r0];
            apply_color_filter(&mut b, &mut g, &mut r, 1, code);
            let (ib, ig, ir, ia) = inverse_color_filter(code as u8, b[0], g[0], r[0], 9);
            assert_eq!((ib as u8, ig as u8, ir as u8, ia as u8), (b0 as u8, g0 as u8, r0 as u8, 9));
        }
    }
}

#[test]
fn color_filter_only_first_len() {
    let mut b = vec![10i8, 20];
    let mut g = vec![5i8, 15];
    let mut r = vec![0i8, 1];
    apply_color_filter(&mut b, &mut g, &mut r, 1, 1);
    assert_eq!(b, vec![5, 20]);
    assert_eq!(r, vec![-5, 1]);
}

#[test]
fn detect_filter_on_gray_data() {
    // Equal channels: filter 1 turns blue and red into zeros, and no
    // filter codes them in fewer bits.
    let b = vec![100u8; 64];
    let (code, _bits) = detect_color_filter(&b, &b, &b, 64);
    assert!(code < 16);
    let (code0, bits0) = detect_color_filter(&[0u8; 8], &[0u8; 8], &[0u8; 8], 8);
    assert_eq!(code0, 0);
    assert!(bits0 > 0);
}

#[test]
fn test_golomb_table_size() {
    assert_eq!(golomb_table().len(), GOLOMB_N_COUNT * 2 * 128);
}

#[test]
fn golomb_table_first_entries() {
    let t = golomb_table();
    for n in 0..GOLOMB_N_COUNT {
        assert_eq!(t[0][n] as u32, golomb_param(0, n as i32));
        assert_eq!(t[1023][n] as u32, golomb_param(1023, n as i32));
    }
    assert_eq!(golomb_param(0, 0), 0);
    assert_eq!(golomb_param(2, 0), 0);
    assert_eq!(golomb_param(3, 0), 1);
    assert_eq!(golomb_param(2, 2), 1);
    assert_eq!(golomb_param(10, 1), 2);
    assert_eq!(golomb_param(1023, 3), 8);
}

#[test]
fn test_gamma_bit_length() {
    assert_eq!(gamma_bit_length(1), 1);
    assert_eq!(gamma_bit_length(2), 3);
    assert_eq!(gamma_bit_length(3), 3);
    assert_eq!(gamma_bit_length(4), 5);
}

#[test]
fn gamma_bit_length_matches_stream() {
    for v in 1..2000u32 {
        let mut bs = TLG6BitStream::new();
        bs.put_gamma(v);
        assert_eq!(bs.get_bit_length(), gamma_bit_length(v));
    }
}

fn golomb_roundtrip(vals: &[i8]) {
    let mut bs = TLG6BitStream::new();
    compress_values_golomb(&mut bs, vals);
    let bits = bs.get_bit_length();
    let mut data = bs.take_data();
    assert_eq!(data.len() as u32, (bits + 7) / 8);
    data.extend_from_slice(&[0, 0, 0, 0, 0]);
    let mut br = TLG6BitReader::new(&data);
    assert_eq!(decode_golomb_channel(&mut br, vals.len()), vals.to_vec());
}

#[test]
fn golomb_roundtrip_values() {
    golomb_roundtrip(&[]);
    golomb_roundtrip(&[0]);
    golomb_roundtrip(&[0, 0, 0, 0, 0, 0]);
    golomb_roundtrip(&[1, -1, 2, -2, 127, -128, 0, 0, 5]);
    let mut v = Vec::new();
    for i in 0..3000i32 {
        v.push(((i * 37 + i / 7) % 256 - 128) as i8);
        if i % 5 == 0 {
            v.push(0);
            v.push(0);
        }
    }
    golomb_roundtrip(&v);
}

#[test]
fn try_compress_counts_the_coded_bits() {
    // Small values: no code reaches the escape to an 8-bit value, where the
    // estimate and the coder differ by the stream's alignment.
    let vals: Vec<i8> = (0..200i32).map(|i| ((i * 13) % 7 - 3) as i8).collect();
    let mut bs = TLG6BitStream::new();
    compress_values_golomb(&mut bs, &vals);
    let mut t = TryCompress::new();
    t.reset();
    // Before any value: the leading flag bit alone.
    assert_eq!(t.flush(), 1);
    t.try_compress(&vals);
    assert_eq!(t.flush(), bs.get_bit_length());
}

#[test]
fn packed_lanes() {
    assert_eq!(packed_bytes_add(0x01020304, 0xff010101), 0x00030405);
    assert_eq!(make_gt_mask(0x05000300, 0x04010300), 0x80008080);
    assert_eq!(make_gt_mask(5, 3), 0x80808080);
    assert_eq!(make_gt_mask(3, 5), 0x80808000);
    assert_eq!(med2(0x0a0a0a0a, 0x14141414, 0x0f0f0f0f), 0x0f0f0f0f);
    assert_eq!(med2(0x0a000000, 0x14000000, 0x1e000000), 0x0a000000);
    assert_eq!(med_predict_add(0x0a, 0x14, 0x1e, 0x01), 0x0b);
    assert_eq!(avg_predict_add(0x0a0b, 0x1400, 0x0101), 0x1007);
}

#[test]
fn med_predictor() {
    assert_eq!(med_predict(10, 20, 15), 15);
    assert_eq!(med_predict(10, 20, 25), 10);
    assert_eq!(med_predict(10, 20, 5), 20);
    assert_eq!(med_predict(200, 100, 150), 150);
}

#[test]
fn golomb_decode_of_zero_bits() {
    // A flag bit 0 (zeros first), then gamma codes that run out into a run
    // of one each: a zero, a non-zero read from an exhausted input (code
    // number 0, so -1), and a zero again.
    let data = [0u8; 8];
    let mut br = TLG6BitReader::new(&data);
    let vals = decode_golomb_channel(&mut br, 3);
    assert_eq!(vals, vec![0i8, -1, 0]);
}

#[test]
fn try_compress_in_pieces() {
    let vals: Vec<i8> = (0..300i32).map(|i| if i % 11 < 4 { 0 } else { ((i * 29) % 41 - 20) as i8 }).collect();
    let mut whole = TryCompress::new();
    whole.reset();
    whole.try_compress(&vals);
    let mut parts = TryCompress::new();
    parts.reset();
    parts.try_compress(&vals[..137]);
    parts.try_compress(&vals[137..]);
    assert_eq!(parts.flush(), whole.flush());
}

#[test]
fn try_compress_exact_below_escape() {
    // Residuals in -12..=12 never take the escape, so the estimate is the
    // coded length exactly, runs of zeros included.
    let vals: Vec<i8> = (0..400i32).map(|i| if (i / 9) % 3 == 0 { 0 } else { ((i * 7) % 25 - 12) as i8 }).collect();
    let mut bs = TLG6BitStream::new();
    compress_values_golomb(&mut bs, &vals);
    let mut t = TryCompress::new();
    t.reset();
    t.try_compress(&vals);
    assert_eq!(t.flush(), bs.get_bit_length());
}

#[test]
fn try_compress_flush_twice() {
    let mut t = TryCompress::new();
    t.reset();
    assert_eq!(t.try_compress(&[0, 0, 0]), 1);
    assert_eq!(t.flush(), 4);
    assert_eq!(t.flush(), 4);
}

#[test]
fn detect_color_filter_empty_block() {
    // Every filter estimates three flag bits for no pixels; the first wins.
    assert_eq!(detect_color_filter(&[], &[], &[], 0), (0, 3));
}
