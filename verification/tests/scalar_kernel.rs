//! Tests of the scalar kernel, checked against the `base64` crate as the
//! reference implementation.

use base64_turbo::scalar::{decode_slice_unsafe, encode_slice_unsafe};
use base64_turbo::{Config, Error};
use base64::engine::general_purpose::{STANDARD, STANDARD_NO_PAD};
use base64::Engine as _;

fn pseudo_bytes(seed: u64, len: usize) -> Vec<u8> {
    let mut state = seed
        .wrapping_mul(6364136223846793005)
        .wrapping_add(1442695040888963407);
    let mut v = Vec::with_capacity(len);
    for _ in 0..len {
        state = state
            .wrapping_mul(6364136223846793005)
            .wrapping_add(1442695040888963407);
        v.push((state >> 33) as u8);
    }
    v
}

fn encoded_size(len: usize, padding: bool) -> usize {
    if padding {
        (len + 2) / 3 * 4
    } else {
        (len * 4 + 2) / 3
    }
}

fn verify_encode(config: &Config, oracle: &base64::engine::GeneralPurpose, input_len: usize) {
    let input = pseudo_bytes(input_len as u64, input_len);
    let expected = oracle.encode(&input);

    let len_required = encoded_size(input_len, config.padding);
    let mut dst = vec![0u8; len_required];

    encode_slice_unsafe(config, &input, &mut dst);

    assert_eq!(
        std::str::from_utf8(&dst).unwrap(),
        expected,
        "Encode len {}",
        input_len
    );
}

fn verify_decode(config: &Config, oracle: &base64::engine::GeneralPurpose, original_len: usize) {
    let input_bytes = pseudo_bytes(original_len as u64 + 7, original_len);
    let encoded = oracle.encode(&input_bytes);
    let encoded_bytes = encoded.as_bytes();

    let cap = (encoded_bytes.len() / 4 + 1) * 3;
    let mut dst = vec![0u8; cap];

    let len = decode_slice_unsafe(config, encoded_bytes, &mut dst)
        .expect("Valid input failed to decode");

    assert_eq!(&dst[..len], &input_bytes, "Decode len {}", original_len);
}

#[test]
fn miri_scalar_encode_fast_loop() {
    let config = Config { url_safe: false, padding: true };
    // The fast path processes whole 3-byte groups.
    verify_encode(&config, &STANDARD, 6);
    verify_encode(&config, &STANDARD, 12);
}

#[test]
fn miri_scalar_encode_tail_logic() {
    let config = Config { url_safe: false, padding: true };
    verify_encode(&config, &STANDARD, 3);
    verify_encode(&config, &STANDARD, 4);
    verify_encode(&config, &STANDARD, 5);
    verify_encode(&config, &STANDARD, 1);
    verify_encode(&config, &STANDARD, 2);
}

#[test]
fn miri_scalar_encode_no_padding() {
    let config = Config { url_safe: false, padding: false };
    verify_encode(&config, &STANDARD_NO_PAD, 1);
    verify_encode(&config, &STANDARD_NO_PAD, 2);
    verify_encode(&config, &STANDARD_NO_PAD, 4);
    verify_encode(&config, &STANDARD_NO_PAD, 5);
}

#[test]
fn miri_scalar_encode_url_safe() {
    let config = Config { url_safe: true, padding: false };
    let input = vec![0xFB, 0xFF, 0xFF];
    let mut dst = vec![0u8; 4];
    encode_slice_unsafe(&config, &input, &mut dst);
    assert_eq!(&dst, b"-___");
}

#[test]
fn miri_scalar_decode_fast_loop() {
    let config = Config { url_safe: false, padding: true };
    verify_decode(&config, &STANDARD, 6);
    verify_decode(&config, &STANDARD, 12);
}

#[test]
fn miri_scalar_decode_tail_padded() {
    let config = Config { url_safe: false, padding: true };

    // "XX==" case (1 output byte)
    let mut dst = [0u8; 6];
    let len = decode_slice_unsafe(&config, b"QQ==", &mut dst).unwrap();
    assert_eq!(len, 1);

    // "XXX=" case (2 output bytes)
    let len = decode_slice_unsafe(&config, b"QUE=", &mut dst).unwrap();
    assert_eq!(len, 2);
}

#[test]
fn miri_scalar_decode_tail_no_pad() {
    let config = Config { url_safe: false, padding: false };

    // "XY" (2 chars -> 1 byte)
    let mut dst = [0u8; 6];
    let len = decode_slice_unsafe(&config, b"QQ", &mut dst).unwrap();
    assert_eq!(len, 1);

    // "XYZ" (3 chars -> 2 bytes)
    let len = decode_slice_unsafe(&config, b"QUE", &mut dst).unwrap();
    assert_eq!(len, 2);
}

#[test]
fn miri_scalar_decode_url_safe() {
    let config = Config { url_safe: true, padding: false };
    let mut dst = [0u8; 3];
    // '-' (62) and '_' (63)
    let len = decode_slice_unsafe(&config, b"-_", &mut dst).unwrap();
    assert_eq!(len, 1);
}

#[test]
fn miri_scalar_errors() {
    let config = Config { url_safe: false, padding: true };
    let mut dst = [0u8; 12];

    // 1. Invalid char in the fast loop region
    let bad_fast = b"AAAAAA!A";
    assert_eq!(
        decode_slice_unsafe(&config, bad_fast, &mut dst),
        Err(Error::InvalidCharacter)
    );

    // 2. Invalid char in a full tail block
    let bad_tail = b"AA!A";
    assert_eq!(
        decode_slice_unsafe(&config, bad_tail, &mut dst),
        Err(Error::InvalidCharacter)
    );

    // 3. Invalid padding position: "A==A" decodes '=' as an ordinary byte
    let bad_pad = b"A==A";
    assert_eq!(
        decode_slice_unsafe(&config, bad_pad, &mut dst),
        Err(Error::InvalidCharacter)
    );

    // 4. Missing padding when the config requires it
    let short_input = b"QQ";
    assert_eq!(
        decode_slice_unsafe(&config, short_input, &mut dst),
        Err(Error::InvalidLength)
    );

    // 5. A single byte cannot carry a whole octet
    let single = b"A";
    let config_no_pad = Config { url_safe: false, padding: false };
    assert_eq!(
        decode_slice_unsafe(&config_no_pad, single, &mut dst),
        Err(Error::InvalidLength)
    );
}
