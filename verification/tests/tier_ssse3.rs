//! Tests of the 128-bit tier kernels: deterministic boundary coverage and a
//! fixed set of longer inputs, all checked against the `base64` crate.

use base64_turbo::ssse3::{decode_slice_simd, encode_slice_simd};
use base64_turbo::Config;
use base64::engine::general_purpose::{STANDARD, STANDARD_NO_PAD, URL_SAFE, URL_SAFE_NO_PAD};
use base64::Engine as _;

fn pseudo_bytes(seed: u64, len: usize) -> Vec<u8> {
    let mut state = seed
        .wrapping_mul(6364136223846793005)
        .wrapping_add(1442695040888963407);
    let mut v = Vec::with_capacity(len);
    for _ in 0..len {
        state = state
            .wrapping_mul(6364136223846793005)
            .wrapping_add(1442695040888963407);
        v.push((state >> 33) as u8);
    }
    v
}

fn encoded_size(len: usize) -> usize {
    (len + 2) / 3 * 4
}

fn encoded_size_unpadded(len: usize) -> usize {
    (len * 4 + 2) / 3
}

fn estimated_decoded_length(len: usize) -> usize {
    (len / 4 + 1) * 3
}

fn verify_roundtrip<E: base64::Engine>(config: &Config, input: &[u8], reference_engine: &E) {
    let len = input.len();

    let expected_string = reference_engine.encode(input);

    let enc_len = if config.padding {
        encoded_size(len)
    } else {
        encoded_size_unpadded(len)
    };
    let mut enc_buf = vec![0u8; enc_len];

    encode_slice_simd(config, input, &mut enc_buf);

    assert_eq!(
        &enc_buf,
        expected_string.as_bytes(),
        "Encoding mismatch. Len: {}",
        len
    );

    let dec_max_len = estimated_decoded_length(enc_len);
    let mut dec_buf = vec![0u8; dec_max_len];

    let written = decode_slice_simd(config, &enc_buf, &mut dec_buf)
        .expect("Decoder returned error on valid input");

    assert_eq!(&dec_buf[..written], input, "Decoding mismatch. Len: {}", len);
}

fn run_cycle<E: base64::Engine>(config: Config, reference_engine: &E) {
    // Part 1: deterministic boundary testing over every short length.
    for len in 0..=64 {
        let input = pseudo_bytes(len as u64, len);
        verify_roundtrip(&config, &input, reference_engine);
    }

    // Part 2: a fixed set of longer lengths.
    for i in 0..100 {
        let len = 65 + (i * 41) % 447;
        let input = pseudo_bytes(i as u64, len);
        verify_roundtrip(&config, &input, reference_engine);
    }
}

#[test]
fn miri_ssse3_url_safe_roundtrip() {
    run_cycle(Config { url_safe: true, padding: true }, &URL_SAFE);
}

#[test]
fn miri_ssse3_url_safe_no_pad_roundtrip() {
    run_cycle(Config { url_safe: true, padding: false }, &URL_SAFE_NO_PAD);
}

#[test]
fn miri_ssse3_standard_roundtrip() {
    run_cycle(Config { url_safe: false, padding: true }, &STANDARD);
}

#[test]
fn miri_ssse3_standard_no_pad_roundtrip() {
    run_cycle(Config { url_safe: false, padding: false }, &STANDARD_NO_PAD);
}

#[test]
fn miri_ssse3_invalid_input() {
    let config = Config { url_safe: true, padding: false };
    let mut out = vec![0u8; 10];

    // Reading invalid bytes must report an error, not wander out of bounds.
    let bad_chars = b"heap+";
    let res = decode_slice_simd(&config, bad_chars, &mut out);
    assert!(res.is_err());
}
