//! Scenario tests for the documented behaviors: exact lengths, literal
//! values, every error variant, one-byte-short buffers, kernel agreement,
//! and parallel/serial agreement.

use base64_turbo::avx2::{decode_slice_avx2, encode_slice_avx2};
use base64_turbo::avx512::{decode_slice_avx512, encode_slice_avx512};
use base64_turbo::scalar::{decode_slice_unsafe, encode_slice_unsafe};
use base64_turbo::ssse3::{decode_slice_simd, encode_slice_simd};
use base64_turbo::{
    encoded_size, standard, standard_no_pad, url_safe, url_safe_no_pad, Config, Error,
};

fn pseudo_bytes(seed: u64, len: usize) -> Vec<u8> {
    let mut state = seed
        .wrapping_mul(6364136223846793005)
        .wrapping_add(1442695040888963407);
    let mut v = Vec::with_capacity(len);
    for _ in 0..len {
        state = state
            .wrapping_mul(6364136223846793005)
            .wrapping_add(1442695040888963407);
        v.push((state >> 33) as u8);
    }
    v
}

#[test]
fn hello_world_literals() {
    assert_eq!(standard().encode(b"Hello world"), "SGVsbG8gd29ybGQ=");
    assert_eq!(
        standard().decode(b"SGVsbG8gd29ybGQ=").unwrap(),
        b"Hello world"
    );
    assert_eq!(standard().encode(b"hello"), "aGVsbG8=");
    assert_eq!(standard().decode(b"aGVsbG8=").unwrap(), b"hello");
}

#[test]
fn exact_length_formulas() {
    assert_eq!(standard().encoded_len(3), 4);
    assert_eq!(standard().encoded_len(1), 4);
    assert_eq!(standard().encoded_len(0), 0);
    assert_eq!(standard().encoded_len(2), 4);
    assert_eq!(standard().encoded_len(4), 8);
    assert_eq!(standard_no_pad().encoded_len(1), 2);
    assert_eq!(standard_no_pad().encoded_len(2), 3);
    assert_eq!(standard_no_pad().encoded_len(3), 4);
    assert_eq!(standard_no_pad().encoded_len(4), 6);
    assert_eq!(encoded_size(5, true), 8);
    assert_eq!(encoded_size(5, false), 7);
    assert_eq!(standard().estimate_decoded_len(0), 3);
    assert_eq!(standard().estimate_decoded_len(4), 6);
    assert_eq!(standard().estimate_decoded_len(8), 9);
}

#[test]
fn round_trip_boundary_lengths_all_configs() {
    let lengths = [
        0, 1, 2, 7, 8, 9, 15, 16, 17, 23, 24, 25, 31, 32, 33, 63, 64, 65, 255, 256, 257,
    ];
    let engines = [standard(), standard_no_pad(), url_safe(), url_safe_no_pad()];
    for &len in &lengths {
        let data = pseudo_bytes(len as u64 + 99, len);
        for eng in &engines {
            let encoded = eng.encode(&data);
            let decoded = eng.decode(encoded.as_bytes()).unwrap();
            assert_eq!(decoded, data, "round trip failed at len {}", len);
        }
    }
}

#[test]
fn encode_into_writes_exactly_encoded_len() {
    let data = pseudo_bytes(17, 50);
    let eng = standard();
    let elen = eng.encoded_len(data.len());
    let mut buf = vec![0xAAu8; elen + 16];
    let written = eng.encode_into(&data, &mut buf).unwrap();
    assert_eq!(written, elen);
    // Nothing beyond the reported length is touched.
    assert!(buf[elen..].iter().all(|&b| b == 0xAA));
}

#[test]
fn buffer_one_byte_short_is_rejected() {
    let data = pseudo_bytes(23, 31);
    let eng = standard();
    let elen = eng.encoded_len(data.len());
    let mut small = vec![0u8; elen - 1];
    assert_eq!(eng.encode_into(&data, &mut small), Err(Error::BufferTooSmall));

    let encoded = eng.encode(&data);
    let est = eng.estimate_decoded_len(encoded.len());
    let mut small_dec = vec![0u8; est - 1];
    assert_eq!(
        eng.decode_into(encoded.as_bytes(), &mut small_dec),
        Err(Error::BufferTooSmall)
    );
}

#[test]
fn error_variants_are_exact() {
    // A character outside the active alphabet.
    assert_eq!(
        standard().decode(b"Abc-"),
        Err(Error::InvalidCharacter)
    );
    // URL-safe symbols are fine under the url-safe alphabet.
    assert!(url_safe().decode(b"Abc-").is_ok());
    // Wrong length under required padding.
    assert_eq!(standard().decode(b"A"), Err(Error::InvalidLength));
    assert_eq!(standard().decode(b"AA"), Err(Error::InvalidLength));
    assert_eq!(standard().decode(b"AAAA="), Err(Error::InvalidLength));
    // A dangling single character is impossible in any mode.
    assert_eq!(standard_no_pad().decode(b"A"), Err(Error::InvalidLength));
    // Padding may only end the input.
    assert_eq!(standard().decode(b"QQ==AAAA"), Err(Error::InvalidCharacter));
    assert_eq!(standard().decode(b"AA=A"), Err(Error::InvalidCharacter));
    assert_eq!(standard().decode(b"A==="), Err(Error::InvalidCharacter));
    assert_eq!(standard().decode(b"===="), Err(Error::InvalidCharacter));
}

#[test]
fn unpadded_tail_asymmetry() {
    // Two or three trailing characters decode; a single one cannot.
    assert_eq!(standard_no_pad().decode(b"QQ").unwrap(), b"A");
    assert_eq!(standard_no_pad().decode(b"QUE").unwrap(), b"AA");
    assert_eq!(standard_no_pad().decode(b"QUJD").unwrap(), b"ABC");
    assert_eq!(standard_no_pad().decode(b"QUJDR"), Err(Error::InvalidLength));
}

#[test]
fn all_kernels_agree_on_same_input() {
    // Every tier and the scalar kernel must produce byte-identical output.
    let configs = [
        Config { url_safe: false, padding: true },
        Config { url_safe: false, padding: false },
        Config { url_safe: true, padding: true },
        Config { url_safe: true, padding: false },
    ];
    for &len in &[0usize, 5, 16, 33, 64, 100, 192, 300] {
        let data = pseudo_bytes(len as u64, len);
        for config in &configs {
            let elen = encoded_size(len, config.padding);
            let mut a = vec![0u8; elen];
            let mut b = vec![0u8; elen];
            let mut c = vec![0u8; elen];
            let mut d = vec![0u8; elen];
            encode_slice_unsafe(config, &data, &mut a);
            encode_slice_simd(config, &data, &mut b);
            encode_slice_avx2(config, &data, &mut c);
            encode_slice_avx512(config, &data, &mut d);
            assert_eq!(a, b);
            assert_eq!(a, c);
            assert_eq!(a, d);

            let est = (elen / 4 + 1) * 3;
            let mut da = vec![0u8; est];
            let mut db = vec![0u8; est];
            let mut dc = vec![0u8; est];
            let mut dd = vec![0u8; est];
            let ra = decode_slice_unsafe(config, &a, &mut da).unwrap();
            let rb = decode_slice_simd(config, &a, &mut db).unwrap();
            let rc = decode_slice_avx2(config, &a, &mut dc).unwrap();
            let rd = decode_slice_avx512(config, &a, &mut dd).unwrap();
            assert_eq!(ra, rb);
            assert_eq!(ra, rc);
            assert_eq!(ra, rd);
            assert_eq!(&da[..ra], &data[..]);
            assert_eq!(&db[..rb], &data[..]);
            assert_eq!(&dc[..rc], &data[..]);
            assert_eq!(&dd[..rd], &data[..]);
        }
    }
}

#[test]
fn parallel_matches_serial() {
    // The same input through the chunked path (above the threshold) and
    // through serial per-piece calls must agree byte for byte.
    let big = pseudo_bytes(7, 600 * 1024);
    let eng = standard();

    let parallel_encoded = eng.encode(&big);

    // Serial reference: feed pieces small enough to stay under the
    // threshold, in whole groups, and concatenate.
    let mut serial_encoded = String::new();
    for piece in big.chunks(24 * 1024) {
        serial_encoded.push_str(&eng.encode(piece));
    }
    assert_eq!(parallel_encoded, serial_encoded);

    let parallel_decoded = eng.decode(parallel_encoded.as_bytes()).unwrap();
    assert_eq!(parallel_decoded, big);
}

#[test]
fn error_messages() {
    assert_eq!(
        Error::InvalidLength.message(),
        "Invalid Base64 input length (must be divisible by 4)"
    );
    assert_eq!(
        Error::InvalidCharacter.message(),
        "Invalid character found in Base64 input"
    );
    assert_eq!(Error::BufferTooSmall.message(), "Destination buffer is too small");
}

#[test]
fn url_safe_symbol_bytes() {
    // 0xFB 0xFF 0xFF exercises both symbol slots of each alphabet.
    let eng = url_safe_no_pad();
    assert_eq!(eng.encode(&[0xFB, 0xFF, 0xFF]), "-___");
    assert_eq!(standard_no_pad().encode(&[0xFB, 0xFF, 0xFF]), "+///");
    assert_eq!(eng.decode(b"-_").unwrap(), &[0xFB][..]);
}
