//! End-to-end tests of the engine facade against the `base64` crate as the
//! reference implementation, over every configuration, every tier
//! transition boundary, the parallel threshold, and adversarial inputs.

use base64_turbo::{standard, standard_no_pad, url_safe, url_safe_no_pad, Engine};
use base64::engine::general_purpose::{
    STANDARD as REF_STANDARD, STANDARD_NO_PAD as REF_STANDARD_NO_PAD, URL_SAFE as REF_URL_SAFE,
    URL_SAFE_NO_PAD as REF_URL_SAFE_NO_PAD,
};
use base64::Engine as _;

fn pseudo_bytes(seed: u64, len: usize) -> Vec<u8> {
    let mut state = seed
        .wrapping_mul(6364136223846793005)
        .wrapping_add(1442695040888963407);
    let mut v = Vec::with_capacity(len);
    for _ in 0..len {
        state = state
            .wrapping_mul(6364136223846793005)
            .wrapping_add(1442695040888963407);
        v.push((state >> 33) as u8);
    }
    v
}

/// The oracle check: encode and decode must agree with the reference crate,
/// through both the allocating and the buffer-filling entry points.
fn assert_oracle_match(
    input: &[u8],
    turbo_engine: &Engine,
    ref_engine: &base64::engine::GeneralPurpose,
) {
    let expected_encoded = ref_engine.encode(input);

    let turbo_encoded = turbo_engine.encode(input);

    assert_eq!(
        turbo_encoded,
        expected_encoded,
        "Encode mismatch. Len: {}",
        input.len()
    );

    let turbo_decoded = turbo_engine
        .decode(expected_encoded.as_bytes())
        .expect("Failed to decode valid reference output");

    assert_eq!(turbo_decoded, input, "Decode mismatch. Len: {}", input.len());

    // Buffer-filling entry points must produce the exact same bytes.
    let required_len = (input.len() + 2) / 3 * 4;
    let mut enc_buf = vec![0u8; required_len + 10];

    let written_enc = turbo_engine.encode_into(input, &mut enc_buf).unwrap();
    assert_eq!(
        written_enc,
        expected_encoded.len(),
        "Zero-alloc encode length mismatch"
    );
    assert_eq!(
        &enc_buf[..written_enc],
        expected_encoded.as_bytes(),
        "Zero-alloc encode content mismatch"
    );

    let mut dec_buf = vec![0u8; input.len() + 10];
    let written_dec = turbo_engine
        .decode_into(expected_encoded.as_bytes(), &mut dec_buf)
        .expect("Zero-alloc decode failed");

    assert_eq!(written_dec, input.len(), "Zero-alloc decode length mismatch");
    assert_eq!(
        &dec_buf[..written_dec],
        input,
        "Zero-alloc decode content mismatch"
    );
}

#[test]
fn test_oracle_standard_exhaustive_small() {
    // Every length from 0 to 1024 crosses each kernel boundary many times.
    for i in 0..=1024 {
        let data = pseudo_bytes(i as u64, i);
        assert_oracle_match(&data, &standard(), &REF_STANDARD);
    }
}

#[test]
fn test_oracle_standard_fuzz_medium() {
    for i in 0..60 {
        let len = 1025 + (i * 7919) % 64511;
        let data = pseudo_bytes(i as u64, len);
        assert_oracle_match(&data, &standard(), &REF_STANDARD);
    }
}

#[test]
fn test_oracle_no_pad_logic() {
    for i in 0..200 {
        let data = pseudo_bytes(i as u64 + 1, i);
        assert_oracle_match(&data, &standard_no_pad(), &REF_STANDARD_NO_PAD);
    }
}

#[test]
fn test_oracle_url_safe_alphabet() {
    // Bytes whose encodings hit the two alphabet-specific symbol slots.
    let tricky_bytes = vec![
        0xFB, 0xFF, 0xBF, 0x3E, 0x3F, 0x00, 0x00, 0x00, 0xFF, 0xFF, 0xFF,
    ];
    assert_oracle_match(&tricky_bytes, &url_safe(), &REF_URL_SAFE);

    for i in 0..500 {
        let len = 1 + (i * 31) % 2047;
        let data = pseudo_bytes(i as u64 + 11, len);
        assert_oracle_match(&data, &url_safe(), &REF_URL_SAFE);
    }
}

#[test]
fn test_simd_scalar_transition_boundaries() {
    let boundaries = [
        7, 8, 9, // scalar fast-loop width
        15, 16, 17, // 128-bit tier threshold
        23, 24, 25, // whole-group alignment (3 bytes in, 4 out)
        31, 32, 33, // 256-bit tier threshold
        63, 64, 65, // 512-bit tier threshold
        255, 256, 257, // beyond a byte-sized index
    ];

    for &len in &boundaries {
        let data = pseudo_bytes(len as u64, len);
        assert_oracle_match(&data, &standard(), &REF_STANDARD);
        assert_oracle_match(&data, &url_safe_no_pad(), &REF_URL_SAFE_NO_PAD);
    }
}

#[test]
fn test_parallel_correctness_large() {
    // 10MB input drives the chunked parallel path.
    let size = 10 * 1024 * 1024;
    let data = pseudo_bytes(42, size);

    let ref_encoded = REF_STANDARD.encode(&data);
    let turbo_encoded = standard().encode(&data);

    assert_eq!(turbo_encoded, ref_encoded, "Parallel Encoding Mismatch");

    let turbo_decoded = standard()
        .decode(turbo_encoded.as_bytes())
        .expect("Parallel Decoding Failed");

    assert_eq!(turbo_decoded, data, "Parallel Round-trip Mismatch");
}

#[test]
fn test_parallel_threshold_boundary() {
    let threshold = 512 * 1024;

    for size in [threshold - 1, threshold, threshold + 1] {
        let data = pseudo_bytes(size as u64, size);
        assert_oracle_match(&data, &standard(), &REF_STANDARD);
    }
}

#[test]
fn test_reject_invalid_chars() {
    let inputs = vec![
        "Abc-", // invalid char '-' for the standard alphabet
        "Abc_", // invalid char '_' for the standard alphabet
        "Abc ", // space
        "Abc\n", // newline
        "Abc\0", // null byte
        "Abc!", // garbage
    ];

    for inp in inputs {
        assert!(
            standard().decode(inp.as_bytes()).is_err(),
            "Standard engine failed to reject invalid input: {:?}",
            inp
        );
    }
}

#[test]
fn test_reject_invalid_padding() {
    let bad_inputs = vec![
        "A", "AA", "AAA", // wrong length
        "AAAA=", // length 5
        "AA=A", // padding in the middle
        "A===", // too much padding
        "====", // only padding
    ];

    for bad in bad_inputs {
        assert!(
            standard().decode(bad.as_bytes()).is_err(),
            "Failed to reject bad padding/length: '{}'",
            bad
        );
    }
}

#[test]
fn test_buffer_overflow_protection_in_safe_api() {
    // Garbage that looks like it would decode to a lot must simply error or
    // succeed, never write out of bounds.
    let data = vec![b'A'; 1024];
    let _ = standard().decode(&data);
}
