//! Tests of the 256-bit tier kernels, checked against the `base64` crate as
//! the reference implementation.

use base64_turbo::avx2::{decode_slice_avx2, encode_slice_avx2};
use base64_turbo::Config;
use base64::engine::general_purpose::{STANDARD, URL_SAFE};
use base64::Engine as _;

fn pseudo_bytes(seed: u64, len: usize) -> Vec<u8> {
    let mut state = seed
        .wrapping_mul(6364136223846793005)
        .wrapping_add(1442695040888963407);
    let mut v = Vec::with_capacity(len);
    for _ in 0..len {
        state = state
            .wrapping_mul(6364136223846793005)
            .wrapping_add(1442695040888963407);
        v.push((state >> 33) as u8);
    }
    v
}

fn verify_encode_avx2(config: &Config, oracle: &base64::engine::GeneralPurpose, input_len: usize) {
    let input = pseudo_bytes(input_len as u64, input_len);
    let expected = oracle.encode(&input);

    let mut dst = vec![0u8; expected.len() * 2];

    encode_slice_avx2(config, &input, &mut dst);

    let result = &dst[..expected.len()];
    assert_eq!(
        std::str::from_utf8(result).unwrap(),
        expected,
        "Encode len {}",
        input_len
    );
}

fn verify_decode_avx2(config: &Config, oracle: &base64::engine::GeneralPurpose, original_len: usize) {
    let input_bytes = pseudo_bytes(original_len as u64 + 3, original_len);
    let encoded = oracle.encode(&input_bytes);
    let encoded_bytes = encoded.as_bytes();

    let mut dst = vec![0u8; original_len + 64];

    let len = decode_slice_avx2(config, encoded_bytes, &mut dst)
        .expect("Valid input failed to decode");

    assert_eq!(&dst[..len], &input_bytes, "Decode len {}", original_len);
}

#[test]
fn miri_encode_scalar_fallback() {
    let config = Config { url_safe: false, padding: true };
    // Below one 24-byte block: straight to the scalar fallback.
    verify_encode_avx2(&config, &STANDARD, 1);
    verify_encode_avx2(&config, &STANDARD, 23);
}

#[test]
fn miri_encode_single_vector_loop() {
    let config = Config { url_safe: false, padding: true };
    verify_encode_avx2(&config, &STANDARD, 24);
    verify_encode_avx2(&config, &STANDARD, 48);
    verify_encode_avx2(&config, &STANDARD, 25);
}

#[test]
fn miri_encode_quad_vector_loop() {
    let config = Config { url_safe: false, padding: true };
    verify_encode_avx2(&config, &STANDARD, 96);
    verify_encode_avx2(&config, &STANDARD, 192);
    verify_encode_avx2(&config, &STANDARD, 97);
    verify_encode_avx2(&config, &STANDARD, 120);
}

#[test]
fn miri_encode_url_safe() {
    let config = Config { url_safe: true, padding: true };
    verify_encode_avx2(&config, &URL_SAFE, 50);
}

#[test]
fn miri_decode_scalar_fallback() {
    let config = Config { url_safe: false, padding: true };
    verify_decode_avx2(&config, &STANDARD, 3);
    verify_decode_avx2(&config, &STANDARD, 21);
}

#[test]
fn miri_decode_single_vector_loop() {
    let config = Config { url_safe: false, padding: true };
    verify_decode_avx2(&config, &STANDARD, 24);
    verify_decode_avx2(&config, &STANDARD, 48);
    verify_decode_avx2(&config, &STANDARD, 25);
}

#[test]
fn miri_decode_quad_vector_loop() {
    let config = Config { url_safe: false, padding: true };
    verify_decode_avx2(&config, &STANDARD, 96);
    verify_decode_avx2(&config, &STANDARD, 192);
    verify_decode_avx2(&config, &STANDARD, 97);
}

#[test]
fn miri_decode_url_safe() {
    // '-' and '_' must classify in the block path.
    let config = Config { url_safe: true, padding: false };

    let input = b"-_-_-_-_-_-_-_-_-_-_-_-_-_-_-_-_"; // 32 bytes
    let mut dst = [0u8; 27];

    decode_slice_avx2(&config, input, &mut dst).unwrap();
}

#[test]
fn miri_decode_error_detection() {
    let config = Config { url_safe: false, padding: true };
    let mut dst = [0u8; 256];

    // Case 1: error at byte 127 of a 128-byte input
    let mut bad_input_128 = vec![b'A'; 128];
    bad_input_128[127] = b'$';
    let res = decode_slice_avx2(&config, &bad_input_128, &mut dst);
    assert!(res.is_err(), "Failed to catch error in Quad Loop lane 4");

    // Case 2: error at byte 31 of a 32-byte input
    let mut bad_input_32 = vec![b'A'; 32];
    bad_input_32[31] = b'?';
    let res = decode_slice_avx2(&config, &bad_input_32, &mut dst);
    assert!(res.is_err(), "Failed to catch error in Single Loop");
}
