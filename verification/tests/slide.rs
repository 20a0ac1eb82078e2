use tlg::slide::{SlideCompressor, SlideDecoder, SlideEncoder};

/// The compressed form of the test text, as the reference compressor
/// produces it: fifteen literals, then back-references of 15, 30, 60, 120
/// and 239 bytes, then one literal.
const TEST_BIN: [u8; 33] = [
    0, 228, 189, 160, 229, 133, 182, 229, 174, 128, 158, 230, 152, 175, 231, 140, 170, 0, 192, 15, 0,
    240, 12, 0, 240, 42, 0, 240, 102, 0, 240, 221, 170,
];

fn test_text() -> Vec<u8> {
    "你其实是猪".repeat(32).into_bytes()
}

#[test]
fn mod_test_encode() {
    let data = test_text();
    let c = SlideEncoder::new().encode(&data);
    assert_eq!(c, TEST_BIN.to_vec());
}

#[test]
fn mod_encode_and_decode() {
    let data = test_text();
    let c = SlideEncoder::new().encode(&data);
    let d = SlideDecoder::new().decode(&c);
    assert_eq!(data, d);
}

#[test]
fn mod_test_decode() {
    let data = test_text();
    let c = SlideDecoder::new().decode(&TEST_BIN);
    assert_eq!(c, data);
}

#[test]
fn compressor_test_encode() {
    let data = test_text();
    let c = SlideCompressor::new().encode(&data);
    assert_eq!(c, TEST_BIN.to_vec());
}

#[test]
fn compressor_encode_and_decode() {
    let data = test_text();
    let c = SlideCompressor::new().encode(&data);
    let d = SlideCompressor::new().decode(&c);
    assert_eq!(data, d);
}

#[test]
fn compressor_test_decode() {
    let data = test_text();
    let c = SlideCompressor::new().decode(&TEST_BIN);
    assert_eq!(c, data);
}

#[test]
fn slide_empty_input() {
    assert!(SlideCompressor::new().encode(&[]).is_empty());
    assert!(SlideDecoder::new().decode(&[]).is_empty());
}

#[test]
fn slide_literals_only() {
    // Three distinct bytes: no match of three bytes exists, so one flag
    // byte with all bits clear, then the literals.
    let c = SlideCompressor::new().encode(&[1, 2, 3]);
    assert_eq!(c, vec![0, 1, 2, 3]);
    assert_eq!(SlideDecoder::new().decode(&c), vec![1, 2, 3]);
}

#[test]
fn slide_zero_window_match() {
    // The window starts all zero, so a run of zeros is a back-reference
    // (nine bytes, from position 1: the write position itself is skipped),
    // then one literal zero.
    let data = vec![0u8; 10];
    let c = SlideCompressor::new().encode(&data);
    assert_eq!(c, vec![1, 1, 96, 0]);
    assert_eq!(SlideDecoder::new().decode(&c), data);
}

#[test]
fn slide_decode_stops_at_cut_item() {
    // A flag byte announcing a back-reference, but only one of its bytes.
    assert!(SlideDecoder::new().decode(&[1, 5]).is_empty());
}

#[test]
fn slide_store_restore() {
    let mut c = SlideCompressor::new();
    c.store();
    let a = c.encode(b"abcabcabc");
    c.restore();
    let b = c.encode(b"abcabcabc");
    assert_eq!(a, b);
}

#[test]
fn slide_roundtrip_long() {
    let mut data = Vec::new();
    for i in 0..20000u32 {
        data.push(((i * 7 + i / 13) % 251) as u8);
    }
    let c = SlideCompressor::new().encode(&data);
    assert_eq!(SlideDecoder::new().decode(&c), data);
}

#[test]
fn compressed_size_bound() {
    // Bytes with no repeats worth a back-reference: every item is a
    // literal, and the output is the input plus one flag byte per eight.
    let data: Vec<u8> = (0..1000u32).map(|i| ((i * 7919 + 13) % 251) as u8 ^ ((i / 251) as u8)).collect();
    let mut c = SlideCompressor::new();
    let out = c.encode(&data);
    assert!(out.len() <= data.len() + (data.len() + 7) / 8);
    let empty = SlideCompressor::new().encode(&[]);
    assert!(empty.is_empty());
}

#[test]
fn restore_rolls_back_any_calls() {
    let text = test_text();
    let mut c = SlideCompressor::new();
    let mut d = SlideCompressor::new();
    c.encode(&text[..40]);
    d.encode(&text[..40]);
    c.store();
    let coded = c.encode(&text[40..90]);
    c.decode(&coded);
    c.encode(b"unrelated bytes");
    c.restore();
    assert_eq!(c.encode(&text[90..]), d.encode(&text[90..]));
    assert_eq!(c.decode(&[0, 1, 2, 3]), d.decode(&[0, 1, 2, 3]));
}
