use hackbot::net::format_usize;
use hackbot::tokenizer::{
    compare_bytes, gpt2_byte_to_codepoint, gpt2_codepoint_to_byte, gpt2_decode_token, preprocess_gpt2,
    ByteOrder,
};
use hackbot::tools::parse_usize;

#[test]
fn gpt2_code_points() {
    assert_eq!(gpt2_byte_to_codepoint(b'a'), 97);
    assert_eq!(gpt2_byte_to_codepoint(b' '), 288);
    assert_eq!(gpt2_byte_to_codepoint(b'\n'), 266);
    assert_eq!(gpt2_byte_to_codepoint(0), 256);
    assert_eq!(gpt2_byte_to_codepoint(0xAD), 323);
    assert_eq!(gpt2_codepoint_to_byte(288), b' ');
    assert_eq!(gpt2_codepoint_to_byte(97), b'a');
    assert_eq!(gpt2_codepoint_to_byte(323), 0xAD);
    assert_eq!(gpt2_codepoint_to_byte(32), 0);
}

#[test]
fn every_byte_maps_back_from_its_code_point() {
    for b in 0..=255u8 {
        assert_eq!(gpt2_codepoint_to_byte(gpt2_byte_to_codepoint(b)), b, "byte {}", b);
    }
}

#[test]
fn gpt2_form_of_text() {
    let mut out = [0u8; 16];
    let n = preprocess_gpt2(b"a b\n", &mut out);
    assert_eq!(&out[..n], "aĠbĊ".as_bytes());
    let mut small = [7u8; 2];
    let n = preprocess_gpt2(b"a b", &mut small);
    assert_eq!(n, 1);
    assert_eq!(small, [b'a', 7]);
    let mut three = [7u8; 3];
    let n = preprocess_gpt2(b"a b", &mut three);
    assert_eq!(n, 3);
    assert_eq!(three, [b'a', 0xC4, 0xA0]);
}

#[test]
fn decoding_undoes_encoding() {
    let input: Vec<u8> = (0..=255u8).chain(b"Hello, world!\n".iter().copied()).collect();
    let mut encoded = vec![0u8; 2 * input.len()];
    let n = preprocess_gpt2(&input, &mut encoded);
    let mut decoded = vec![0u8; input.len()];
    let m = gpt2_decode_token(&encoded[..n], &mut decoded);
    assert_eq!(m, input.len());
    assert_eq!(decoded, input);
}

#[test]
fn decoding_a_token() {
    let mut out = [0u8; 8];
    let n = gpt2_decode_token("ĠHi".as_bytes(), &mut out);
    assert_eq!(&out[..n], b" Hi");
    let mut tiny = [0u8; 2];
    let n = gpt2_decode_token("ĠHi".as_bytes(), &mut tiny);
    assert_eq!(&tiny[..n], b" H");
}

#[test]
fn byte_string_order() {
    assert_eq!(compare_bytes(b"abc", b"abd"), ByteOrder::Less);
    assert_eq!(compare_bytes(b"abd", b"abc"), ByteOrder::Greater);
    assert_eq!(compare_bytes(b"ab", b"abc"), ByteOrder::Less);
    assert_eq!(compare_bytes(b"abc", b"abc"), ByteOrder::Equal);
    assert_eq!(compare_bytes(b"", b""), ByteOrder::Equal);
    assert_eq!(compare_bytes(b"b", b"abc"), ByteOrder::Greater);
}

#[test]
fn reading_back_formatted_numbers() {
    for n in [0usize, 7, 10, 65535, 1_234_567_890, usize::MAX] {
        assert_eq!(parse_usize(&format_usize(n)), n);
    }
}
