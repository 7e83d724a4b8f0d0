use lzw::decode;
use lzw::encode;
use lzw::DecodeError;

#[test]
fn decoded_equal_to_data() {
    let data: &[u8] = b"Hello, world";
    let encoder_output = encode(data);
    let decoder_output = decode(&encoder_output).unwrap();
    assert_eq!(b"Hello, world", &decoder_output[..]);
}

#[test]
fn empty_round_trip() {
    let encoded = encode(b"");
    assert_eq!(encoded, Vec::<u8>::new());
    let decoded = decode(&encoded).unwrap();
    assert_eq!(decoded, Vec::<u8>::new());
}

#[test]
fn single_byte_exact_output() {
    // 'A' matches the pre-seeded dictionary whole, so only the final code
    // comes out: value 65 in nine bits, zero-padded to two bytes.
    let encoded = encode(b"A");
    assert_eq!(encoded, vec![65, 0]);
    assert_eq!(decode(&encoded).unwrap(), b"A".to_vec());
}

#[test]
fn repeated_bytes_round_trip() {
    // eight identical bytes drive the decoder through the case where a
    // code names the entry the encoder has only just defined
    let data: &[u8] = b"AAAAAAAA";
    let encoded = encode(data);
    let decoded = decode(&encoded).unwrap();
    assert_eq!(data, &decoded[..]);
}

#[test]
fn repetitive_text_round_trip() {
    let mut data = Vec::new();
    for i in 0..5000 {
        data.extend_from_slice(b"abcabcabcd");
        data.push((i % 256) as u8);
    }
    let encoded = encode(&data);
    assert!(encoded.len() < data.len());
    let decoded = decode(&encoded).unwrap();
    assert_eq!(data, decoded);
}

#[test]
fn all_byte_values_round_trip() {
    let mut data = Vec::new();
    for i in 0..=255u8 {
        data.push(i);
    }
    for i in (0..=255u8).rev() {
        data.push(i);
    }
    let encoded = encode(&data);
    let decoded = decode(&encoded).unwrap();
    assert_eq!(data, decoded);
}

#[test]
fn encode_is_deterministic() {
    let data: &[u8] = b"the quick brown fox jumps over the lazy dog";
    assert_eq!(encode(data), encode(data));
}

#[test]
fn out_of_range_code_is_corrupt() {
    // first code reads as value 300, so index 301 > 257
    let result = decode(&[44, 1]);
    assert_eq!(result, Err(DecodeError::CorruptStream));
}

#[test]
fn pending_code_before_any_output_is_corrupt() {
    // first code reads as value 256: it names the entry one past the
    // dictionary, but no previous string exists to synthesize it from
    let result = decode(&[0, 1]);
    assert_eq!(result, Err(DecodeError::CorruptStream));
}

#[test]
fn trailing_padding_is_ignored() {
    // a single code occupies nine bits; the seven pad bits do not decode
    let encoded = encode(b"Z");
    assert_eq!(encoded.len(), 2);
    let decoded = decode(&encoded).unwrap();
    assert_eq!(decoded, b"Z".to_vec());
}
