//! The mathematical model of the codec: the two alphabets, the inverse
//! lookup, the meaning of encoding and of decoding as functions on byte
//! sequences, and the laws that relate them.

use vstd::prelude::*;
use crate::Error;

verus! {

/// The byte that represents the 6-bit value `v` under the chosen alphabet.
pub open spec fn b64_char_of(url_safe: bool, v: int) -> u8
    recommends
        0 <= v < 64,
{
    if v < 26 {
        (65 + v) as u8  // 'A'..'Z'
    } else if v < 52 {
        (71 + v) as u8  // 'a'..'z'
    } else if v < 62 {
        (v - 4) as u8  // '0'..'9'
    } else if v == 62 {
        if url_safe { 45u8 } else { 43u8 }  // '-' or '+'
    } else {
        if url_safe { 95u8 } else { 47u8 }  // '_' or '/'
    }
}

/// The 6-bit value of the byte `b` under the chosen alphabet, or 255 if `b`
/// is not an alphabet member. This is the inverse lookup table: an entry is
/// invalid exactly when its byte is outside the alphabet, and the invalid
/// sentinel has both of its top two bits set.
pub open spec fn b64_index_of(url_safe: bool, b: u8) -> u8 {
    if 65 <= b <= 90 {
        (b - 65) as u8  // 'A'..'Z' -> 0..25
    } else if 97 <= b <= 122 {
        (b - 71) as u8  // 'a'..'z' -> 26..51
    } else if 48 <= b <= 57 {
        (b + 4) as u8  // '0'..'9' -> 52..61
    } else if b == (if url_safe { 45u8 } else { 43u8 }) {
        62u8
    } else if b == (if url_safe { 95u8 } else { 47u8 }) {
        63u8
    } else {
        255u8
    }
}

/// Whether `b` belongs to the chosen 64-symbol alphabet.
pub open spec fn is_b64_byte(url_safe: bool, b: u8) -> bool {
    b64_index_of(url_safe, b) < 64
}

/// The four alphabet bytes that encode the three raw bytes `b0 b1 b2`.
pub open spec fn encode3(url_safe: bool, b0: u8, b1: u8, b2: u8) -> Seq<u8> {
    seq![
        b64_char_of(url_safe, b0 as int / 4),
        b64_char_of(url_safe, (b0 as int % 4) * 16 + b1 as int / 16),
        b64_char_of(url_safe, (b1 as int % 16) * 4 + b2 as int / 64),
        b64_char_of(url_safe, b2 as int % 64),
    ]
}

/// The encoding of a whole byte sequence: full 3-byte groups become 4
/// alphabet bytes each; a 1- or 2-byte remainder becomes 2 or 3 alphabet
/// bytes, padded with `=` up to a multiple of 4 when padding is on.
pub open spec fn encoding(url_safe: bool, padding: bool, s: Seq<u8>) -> Seq<u8>
    decreases s.len(),
{
    if s.len() >= 3 {
        encode3(url_safe, s[0], s[1], s[2]) + encoding(url_safe, padding, s.skip(3))
    } else if s.len() == 2 {
        seq![
            b64_char_of(url_safe, s[0] as int / 4),
            b64_char_of(url_safe, (s[0] as int % 4) * 16 + s[1] as int / 16),
            b64_char_of(url_safe, (s[1] as int % 16) * 4),
        ] + if padding { seq![61u8] } else { Seq::<u8>::empty() }
    } else if s.len() == 1 {
        seq![
            b64_char_of(url_safe, s[0] as int / 4),
            b64_char_of(url_safe, (s[0] as int % 4) * 16),
        ] + if padding { seq![61u8, 61u8] } else { Seq::<u8>::empty() }
    } else {
        Seq::<u8>::empty()
    }
}

/// The exact number of bytes that encoding `n` input bytes produces.
pub open spec fn encoded_len_of(padding: bool, n: int) -> int {
    if padding {
        ((n + 2) / 3) * 4
    } else {
        (n * 4 + 2) / 3
    }
}

/// The upper bound on the number of bytes that decoding an `n`-byte input
/// can produce; the true length is known only after decoding.
pub open spec fn decoded_len_estimate_of(n: int) -> int {
    (n / 4 + 1) * 3
}

/// The first decoded byte of a group, from the first two 6-bit values.
pub open spec fn dec_b0(d0: u8, d1: u8) -> u8 {
    ((d0 as int) * 4 + (d1 as int) / 16) as u8
}

/// The second decoded byte of a group, from the middle two 6-bit values.
pub open spec fn dec_b1(d1: u8, d2: u8) -> u8 {
    (((d1 as int) % 16) * 16 + (d2 as int) / 4) as u8
}

/// The third decoded byte of a group, from the last two 6-bit values.
pub open spec fn dec_b2(d2: u8, d3: u8) -> u8 {
    (((d2 as int) % 4) * 64 + (d3 as int)) as u8
}

/// The meaning of decoding: the input is scanned in 4-byte groups from the
/// front. A full group of alphabet bytes yields 3 raw bytes. A group whose
/// last byte is `=` must be the final group of the input and yields 1 raw
/// byte (under `xx==`) or 2 (under `xxx=`). A 2- or 3-byte remainder is
/// accepted only when padding is not required and yields 1 or 2 raw bytes;
/// a 1-byte remainder can never carry a whole byte. The first offending
/// group determines the error.
pub open spec fn decoding(url_safe: bool, padding: bool, s: Seq<u8>) -> Result<Seq<u8>, Error>
    decreases s.len(),
{
    if s.len() == 0 {
        Ok(Seq::<u8>::empty())
    } else if s.len() >= 4 {
        let d0 = b64_index_of(url_safe, s[0]);
        let d1 = b64_index_of(url_safe, s[1]);
        let d2 = b64_index_of(url_safe, s[2]);
        let d3 = b64_index_of(url_safe, s[3]);
        if s[3] == 61 {
            if s.len() > 4 {
                Err(Error::InvalidCharacter)
            } else if s[2] == 61 {
                if d0 < 64 && d1 < 64 {
                    Ok(seq![dec_b0(d0, d1)])
                } else {
                    Err(Error::InvalidCharacter)
                }
            } else {
                if d0 < 64 && d1 < 64 && d2 < 64 {
                    Ok(seq![dec_b0(d0, d1), dec_b1(d1, d2)])
                } else {
                    Err(Error::InvalidCharacter)
                }
            }
        } else if d0 < 64 && d1 < 64 && d2 < 64 && d3 < 64 {
            match decoding(url_safe, padding, s.skip(4)) {
                Ok(rest) => Ok(seq![dec_b0(d0, d1), dec_b1(d1, d2), dec_b2(d2, d3)] + rest),
                Err(e) => Err(e),
            }
        } else {
            Err(Error::InvalidCharacter)
        }
    } else if padding {
        Err(Error::InvalidLength)
    } else if s.len() == 1 {
        Err(Error::InvalidLength)
    } else {
        let d0 = b64_index_of(url_safe, s[0]);
        let d1 = b64_index_of(url_safe, s[1]);
        if s.len() == 2 {
            if d0 < 64 && d1 < 64 {
                Ok(seq![dec_b0(d0, d1)])
            } else {
                Err(Error::InvalidCharacter)
            }
        } else {
            let d2 = b64_index_of(url_safe, s[2]);
            if d0 < 64 && d1 < 64 && d2 < 64 {
                Ok(seq![dec_b0(d0, d1), dec_b1(d1, d2)])
            } else {
                Err(Error::InvalidCharacter)
            }
        }
    }
}

/// Prepends already-decoded bytes to the outcome of decoding a suffix.
pub open spec fn prefixed(w: Seq<u8>, r: Result<Seq<u8>, Error>) -> Result<Seq<u8>, Error> {
    match r {
        Ok(v) => Ok(w + v),
        Err(e) => Err(e),
    }
}

/// Two equal-length sequences that agree from position `x` on also agree
/// from any later position on.
pub proof fn lemma_skip_mono(a: Seq<u8>, b: Seq<u8>, x: int, y: int)
    requires
        0 <= x <= y <= a.len(),
        a.len() == b.len(),
        a.skip(x) == b.skip(x),
    ensures
        a.skip(y) == b.skip(y),
{
    assert forall|j: int| 0 <= j < a.len() - y implies a.skip(y)[j] == b.skip(y)[j] by {
        assert(a.skip(x)[y - x + j] == b.skip(x)[y - x + j]);
        assert(a.skip(x)[y - x + j] == a[y + j]);
        assert(b.skip(x)[y - x + j] == b[y + j]);
    }
    assert(a.skip(y) =~= b.skip(y));
}

/// Splitting a product-plus-remainder by the factor recovers the parts.
pub proof fn lemma_div_mul_add(x: int, y: int, m: int)
    requires
        m > 0,
        0 <= x,
        0 <= y < m,
    ensures
        (x * m + y) / m == x,
        (x * m + y) % m == y,
{
    assert((x * m + y) / m == x && (x * m + y) % m == y) by (nonlinear_arith)
        requires
            m > 0,
            0 <= x,
            0 <= y < m,
    ;
}

/// Rounding down to a whole number of blocks keeps divisibility by any
/// factor of the block size.
pub proof fn lemma_align(safe: int, block: int, unit: int)
    requires
        safe >= 0,
        block >= 1,
        unit >= 1,
        block % unit == 0,
    ensures
        0 <= safe - safe % block <= safe,
        (safe - safe % block) % unit == 0,
{
    assert(0 <= safe % block < block && safe - safe % block == block * (safe / block) && safe
        / block >= 0) by (nonlinear_arith)
        requires
            safe >= 0,
            block >= 1,
    ;
    let q = safe / block;
    let t = (block / unit) * q;
    assert(block == (block / unit) * unit) by (nonlinear_arith)
        requires
            block % unit == 0,
            unit >= 1,
            block >= 1,
    ;
    assert(block * q == t * unit) by (nonlinear_arith)
        requires
            block == (block / unit) * unit,
            t == (block / unit) * q,
    ;
    vstd::arithmetic::div_mod::lemma_mod_multiples_basic(t, unit);
}

/// Prepending nothing to a decode outcome leaves it unchanged.
pub proof fn lemma_prefixed_empty(r: Result<Seq<u8>, Error>)
    ensures
        prefixed(Seq::<u8>::empty(), r) == r,
{
    match r {
        Ok(v) => {
            assert(Seq::<u8>::empty() + v =~= v);
        },
        Err(_) => {},
    }
}

/// Division by a positive constant, then scaling, is monotone.
pub proof fn lemma_div_mul_le(k: int, n: int, d: int, f: int)
    requires
        0 <= k <= n,
        1 <= d,
        0 <= f,
    ensures
        (k / d) * f <= (n / d) * f,
{
    assert((k / d) * f <= (n / d) * f) by (nonlinear_arith)
        requires
            0 <= k <= n,
            1 <= d,
            0 <= f,
    ;
}

/// A whole-group prefix never encodes to more bytes than the whole input.
pub proof fn lemma_encoded_len_lb(padding: bool, k: int, n: int)
    requires
        0 <= k <= n,
        k % 3 == 0,
    ensures
        (k / 3) * 4 <= encoded_len_of(padding, n),
{
    assert((k / 3) * 4 <= ((n + 2) / 3) * 4 && (k / 3) * 4 <= (n * 4 + 2) / 3)
        by (nonlinear_arith)
        requires
            0 <= k <= n,
            k % 3 == 0,
    ;
}

/// Encoding a 6-bit value and looking the byte back up recovers the value;
/// the alphabet never contains the padding byte and is pure ASCII.
pub proof fn lemma_char_of_index(url_safe: bool, v: int)
    requires
        0 <= v < 64,
    ensures
        b64_index_of(url_safe, b64_char_of(url_safe, v)) == v,
        b64_char_of(url_safe, v) != 61,
        b64_char_of(url_safe, v) < 128,
{
}

/// The length of an encoding is exactly `encoded_len_of` of the input length.
pub proof fn lemma_encoding_len(url_safe: bool, padding: bool, s: Seq<u8>)
    ensures
        encoding(url_safe, padding, s).len() == encoded_len_of(padding, s.len() as int),
    decreases s.len(),
{
    if s.len() >= 3 {
        lemma_encoding_len(url_safe, padding, s.skip(3));
    }
}

/// Encoding distributes over a split at any whole-group boundary.
pub proof fn lemma_encoding_split(url_safe: bool, padding: bool, s: Seq<u8>, k: int)
    requires
        0 <= k <= s.len(),
        k % 3 == 0,
    ensures
        encoding(url_safe, padding, s) == encoding(url_safe, padding, s.take(k)) + encoding(
            url_safe,
            padding,
            s.skip(k),
        ),
    decreases k,
{
    if k == 0 {
        assert(s.take(0) =~= Seq::<u8>::empty());
        assert(s.skip(0) =~= s);
        assert(encoding(url_safe, padding, s.take(0)) + encoding(url_safe, padding, s.skip(0))
            =~= encoding(url_safe, padding, s));
    } else {
        assert(s.len() >= 3);
        lemma_encoding_split(url_safe, padding, s.skip(3), k - 3);
        let t = s.take(k);
        assert(t.len() >= 3 && t[0] == s[0] && t[1] == s[1] && t[2] == s[2]);
        assert(s.skip(3).take(k - 3) =~= t.skip(3));
        assert(s.skip(3).skip(k - 3) =~= s.skip(k));
        assert(encode3(url_safe, s[0], s[1], s[2]) + (encoding(url_safe, padding, t.skip(3))
            + encoding(url_safe, padding, s.skip(k))) =~= (encode3(url_safe, s[0], s[1], s[2])
            + encoding(url_safe, padding, t.skip(3))) + encoding(url_safe, padding, s.skip(k)));
    }
}

/// Every byte of an encoding is ASCII.
pub proof fn lemma_encoding_ascii(url_safe: bool, padding: bool, s: Seq<u8>)
    ensures
        forall|i: int|
            0 <= i < encoding(url_safe, padding, s).len() ==> encoding(url_safe, padding, s)[i]
                < 128,
    decreases s.len(),
{
    let e = encoding(url_safe, padding, s);
    if s.len() >= 3 {
        lemma_encoding_ascii(url_safe, padding, s.skip(3));
        let g = encode3(url_safe, s[0], s[1], s[2]);
        let rest = encoding(url_safe, padding, s.skip(3));
        assert forall|i: int| 0 <= i < e.len() implies e[i] < 128 by {
            if i < 4 {
                assert(e[i] == g[i]);
            } else {
                assert(e[i] == rest[i - 4]);
            }
        }
    } else if s.len() == 2 || s.len() == 1 {
        assert forall|i: int| 0 <= i < e.len() implies e[i] < 128 by {}
    }
}

/// Decoding the three bytes packed from a full group recovers them.
proof fn lemma_group_arith(b0: u8, b1: u8, b2: u8)
    ensures
        0 <= b0 as int / 4 < 64,
        0 <= (b0 as int % 4) * 16 + b1 as int / 16 < 64,
        0 <= (b1 as int % 16) * 4 + b2 as int / 64 < 64,
        0 <= b2 as int % 64 < 64,
        dec_b0(
            ((b0 as int / 4) as u8),
            (((b0 as int % 4) * 16 + b1 as int / 16) as u8),
        ) == b0,
        dec_b1(
            (((b0 as int % 4) * 16 + b1 as int / 16) as u8),
            (((b1 as int % 16) * 4 + b2 as int / 64) as u8),
        ) == b1,
        dec_b2((((b1 as int % 16) * 4 + b2 as int / 64) as u8), ((b2 as int % 64) as u8)) == b2,
{
    let i0 = b0 as int / 4;
    let i1 = (b0 as int % 4) * 16 + b1 as int / 16;
    let i2 = (b1 as int % 16) * 4 + b2 as int / 64;
    let i3 = b2 as int % 64;
    lemma_div_mul_add(b0 as int % 4, b1 as int / 16, 16);
    lemma_div_mul_add(b1 as int % 16, b2 as int / 64, 4);
    assert(i1 / 16 == b0 as int % 4 && i1 % 16 == b1 as int / 16);
    assert(i2 / 4 == b1 as int % 16 && i2 % 4 == b2 as int / 64);
    assert(i0 * 4 + i1 / 16 == b0 as int);
    assert((i1 % 16) * 16 + i2 / 4 == b1 as int);
    assert((i2 % 4) * 64 + i3 == b2 as int);
}

/// Round-trip for an input of fewer than three bytes.
proof fn lemma_round_trip_short(url_safe: bool, padding: bool, s: Seq<u8>)
    requires
        s.len() < 3,
    ensures
        decoding(url_safe, padding, encoding(url_safe, padding, s)) == Ok::<Seq<u8>, Error>(s),
{
    let e = encoding(url_safe, padding, s);
    if s.len() == 2 {
        lemma_group_arith(s[0], s[1], 0u8);
        let i0 = s[0] as int / 4;
        let i1 = (s[0] as int % 4) * 16 + s[1] as int / 16;
        let i2 = (s[1] as int % 16) * 4;
        lemma_char_of_index(url_safe, i0);
        lemma_char_of_index(url_safe, i1);
        lemma_char_of_index(url_safe, i2);
        let c0 = b64_char_of(url_safe, i0);
        let c1 = b64_char_of(url_safe, i1);
        let c2 = b64_char_of(url_safe, i2);
        if padding {
            assert(e =~= seq![c0, c1, c2, 61u8]);
        } else {
            assert(e =~= seq![c0, c1, c2]);
        }
        let d0 = b64_index_of(url_safe, e[0]);
        let d1 = b64_index_of(url_safe, e[1]);
        let d2 = b64_index_of(url_safe, e[2]);
        assert(d0 == i0 as u8 && d1 == i1 as u8 && d2 == i2 as u8);
        assert(dec_b0(d0, d1) == s[0] && dec_b1(d1, d2) == s[1]);
        assert(seq![dec_b0(d0, d1), dec_b1(d1, d2)] =~= s);
    } else if s.len() == 1 {
        lemma_group_arith(s[0], 0u8, 0u8);
        let i0 = s[0] as int / 4;
        let i1 = (s[0] as int % 4) * 16;
        lemma_char_of_index(url_safe, i0);
        lemma_char_of_index(url_safe, i1);
        let c0 = b64_char_of(url_safe, i0);
        let c1 = b64_char_of(url_safe, i1);
        if padding {
            assert(e =~= seq![c0, c1, 61u8, 61u8]);
        } else {
            assert(e =~= seq![c0, c1]);
        }
        let d0 = b64_index_of(url_safe, e[0]);
        let d1 = b64_index_of(url_safe, e[1]);
        assert(d0 == i0 as u8 && d1 == i1 as u8);
        assert(dec_b0(d0, d1) == s[0]);
        assert(seq![dec_b0(d0, d1)] =~= s);
    } else {
        assert(e =~= Seq::<u8>::empty());
        assert(s =~= Seq::<u8>::empty());
    }
}

/// Round-trip: decoding an encoding recovers the original bytes, for every
/// configuration and every byte sequence.
#[verifier::rlimit(100)]
pub proof fn lemma_round_trip(url_safe: bool, padding: bool, s: Seq<u8>)
    ensures
        decoding(url_safe, padding, encoding(url_safe, padding, s)) == Ok::<Seq<u8>, Error>(s),
    decreases s.len(),
{
    let e = encoding(url_safe, padding, s);
    if s.len() >= 3 {
        lemma_round_trip(url_safe, padding, s.skip(3));
        lemma_group_arith(s[0], s[1], s[2]);
        let i0 = s[0] as int / 4;
        let i1 = (s[0] as int % 4) * 16 + s[1] as int / 16;
        let i2 = (s[1] as int % 16) * 4 + s[2] as int / 64;
        let i3 = s[2] as int % 64;
        lemma_char_of_index(url_safe, i0);
        lemma_char_of_index(url_safe, i1);
        lemma_char_of_index(url_safe, i2);
        lemma_char_of_index(url_safe, i3);
        let g = encode3(url_safe, s[0], s[1], s[2]);
        let rest = encoding(url_safe, padding, s.skip(3));
        assert(e.len() == 4 + rest.len());
        assert(e[0] == g[0] && e[1] == g[1] && e[2] == g[2] && e[3] == g[3]);
        assert(e.skip(4) =~= rest);
        assert(e[3] != 61);
        let d0 = b64_index_of(url_safe, e[0]);
        let d1 = b64_index_of(url_safe, e[1]);
        let d2 = b64_index_of(url_safe, e[2]);
        let d3 = b64_index_of(url_safe, e[3]);
        assert(d0 == i0 as u8 && d1 == i1 as u8 && d2 == i2 as u8 && d3 == i3 as u8);
        assert(dec_b0(d0, d1) == s[0] && dec_b1(d1, d2) == s[1] && dec_b2(d2, d3) == s[2]);
        assert(decoding(url_safe, padding, e.skip(4)) == Ok::<Seq<u8>, Error>(s.skip(3)));
        assert(seq![dec_b0(d0, d1), dec_b1(d1, d2), dec_b2(d2, d3)] + s.skip(3) =~= s);
    } else {
        lemma_round_trip_short(url_safe, padding, s);
    }
}

/// Decoding itself never reports a buffer problem: its only errors are
/// `InvalidLength` and `InvalidCharacter`.
pub proof fn lemma_decoding_no_buffer_error(url_safe: bool, padding: bool, s: Seq<u8>)
    ensures
        decoding(url_safe, padding, s) != Err::<Seq<u8>, Error>(Error::BufferTooSmall),
    decreases s.len(),
{
    if s.len() >= 4 && s[3] != 61 {
        lemma_decoding_no_buffer_error(url_safe, padding, s.skip(4));
    }
}

/// How decoding a whole-group chunk relates to decoding the sequence it
/// starts: a chunk that decodes in full extends the decoding of the rest; a
/// chunk that decodes short ended in padding, which cannot be followed by
/// more input; a chunk that fails fails the whole.
#[verifier::rlimit(100)]
pub proof fn lemma_decoding_chunk(url_safe: bool, padding: bool, t: Seq<u8>, c: int)
    requires
        0 < c < t.len(),
        c % 4 == 0,
    ensures
        match decoding(url_safe, padding, t.take(c)) {
            Ok(v) => if v.len() == 3 * (c / 4) {
                decoding(url_safe, padding, t) == prefixed(
                    v,
                    decoding(url_safe, padding, t.skip(c)),
                )
            } else {
                decoding(url_safe, padding, t) == Err::<Seq<u8>, Error>(Error::InvalidCharacter)
            },
            Err(e) => decoding(url_safe, padding, t) == Err::<Seq<u8>, Error>(e),
        },
    decreases c,
{
    let h = t.take(c);
    assert(h.len() == c >= 4);
    assert(h[0] == t[0] && h[1] == t[1] && h[2] == t[2] && h[3] == t[3]);
    let d0 = b64_index_of(url_safe, t[0]);
    let d1 = b64_index_of(url_safe, t[1]);
    let d2 = b64_index_of(url_safe, t[2]);
    let d3 = b64_index_of(url_safe, t[3]);
    if t[3] == 61 {
        // The padded group ends the stream inside the chunk; the chunk is
        // followed by more input, so the whole input is rejected.
        assert(t.len() > 4);
        if c == 4 {
            assert(decoding(url_safe, padding, t) == Err::<Seq<u8>, Error>(
                Error::InvalidCharacter,
            ));
            match decoding(url_safe, padding, h) {
                Ok(v) => {
                    assert(v.len() < 3);
                },
                Err(e) => {
                    assert(e == Error::InvalidCharacter);
                },
            }
        }
    } else if d0 < 64 && d1 < 64 && d2 < 64 && d3 < 64 {
        let g = seq![dec_b0(d0, d1), dec_b1(d1, d2), dec_b2(d2, d3)];
        assert(h.skip(4) =~= t.skip(4).take(c - 4));
        if c == 4 {
            assert(h.skip(4) =~= Seq::<u8>::empty());
            assert(decoding(url_safe, padding, h.skip(4)) == Ok::<Seq<u8>, Error>(
                Seq::<u8>::empty(),
            ));
            assert(g + Seq::<u8>::empty() =~= g);
            assert(decoding(url_safe, padding, h) == Ok::<Seq<u8>, Error>(g));
        } else {
            lemma_decoding_chunk(url_safe, padding, t.skip(4), c - 4);
            assert(t.skip(4).skip(c - 4) =~= t.skip(c));
            match decoding(url_safe, padding, h.skip(4)) {
                Ok(v2) => {
                    assert(decoding(url_safe, padding, h) == Ok::<Seq<u8>, Error>(g + v2));
                    if v2.len() == 3 * ((c - 4) / 4) {
                        assert((g + v2).len() == 3 * (c / 4));
                        assert(decoding(url_safe, padding, t.skip(4)) == prefixed(
                            v2,
                            decoding(url_safe, padding, t.skip(c)),
                        ));
                        match decoding(url_safe, padding, t.skip(c)) {
                            Ok(w) => {
                                assert(g + (v2 + w) =~= (g + v2) + w);
                            },
                            Err(_) => {},
                        }
                    } else {
                        assert((g + v2).len() != 3 * (c / 4));
                        assert(decoding(url_safe, padding, t.skip(4)) == Err::<Seq<u8>, Error>(
                            Error::InvalidCharacter,
                        ));
                    }
                },
                Err(_) => {},
            }
        }
    }
}

/// A decoding that succeeds saw only alphabet bytes and the padding byte.
pub proof fn lemma_decoding_ok_only_alphabet(url_safe: bool, padding: bool, s: Seq<u8>)
    requires
        decoding(url_safe, padding, s) is Ok,
    ensures
        forall|i: int| 0 <= i < s.len() ==> is_b64_byte(url_safe, s[i]) || s[i] == 61,
    decreases s.len(),
{
    if s.len() >= 4 && s[3] != 61 {
        lemma_decoding_ok_only_alphabet(url_safe, padding, s.skip(4));
        assert(forall|i: int|
            4 <= i < s.len() ==> s[i] == s.skip(4)[i - 4] && (is_b64_byte(url_safe, s.skip(4)[i
                - 4]) || s.skip(4)[i - 4] == 61));
    }
}

/// Under a padding-requiring configuration, only inputs whose length is a
/// multiple of four can decode successfully.
pub proof fn lemma_decoding_ok_padded_len(url_safe: bool, s: Seq<u8>)
    requires
        decoding(url_safe, true, s) is Ok,
    ensures
        s.len() % 4 == 0,
    decreases s.len(),
{
    if s.len() >= 4 && s[3] != 61 {
        lemma_decoding_ok_padded_len(url_safe, s.skip(4));
    }
}

/// The number of decoded bytes never exceeds three per full input group,
/// plus what a trailing 2- or 3-byte remainder can carry.
pub proof fn lemma_decoded_len_bound(url_safe: bool, padding: bool, s: Seq<u8>, v: Seq<u8>)
    requires
        decoding(url_safe, padding, s) == Ok::<Seq<u8>, Error>(v),
    ensures
        v.len() <= 3 * (s.len() as int / 4) + (if s.len() as int % 4 >= 2 {
            s.len() as int % 4 - 1
        } else {
            0
        }),
    decreases s.len(),
{
    if s.len() >= 4 && s[3] != 61 {
        match decoding(url_safe, padding, s.skip(4)) {
            Ok(rest) => {
                lemma_decoded_len_bound(url_safe, padding, s.skip(4), rest);
            },
            Err(_) => {},
        }
    }
}

} // verus!
