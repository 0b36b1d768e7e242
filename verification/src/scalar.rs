//! The scalar kernel: a portable encode/decode pair that is always
//! applicable, and that every wider kernel falls back to for tails shorter
//! than one of its blocks. Both directions work group by group over
//! caller-chosen ranges, so the wider kernels can reuse them.

use vstd::prelude::*;
use crate::Config;
use crate::Error;
use crate::model::{encoding, encode3, encoded_len_of, lemma_encoding_split, lemma_encoding_len, decoding, prefixed, dec_b0, dec_b1, dec_b2, b64_index_of, decoded_len_estimate_of, lemma_skip_mono, lemma_prefixed_empty, lemma_div_mul_le, lemma_encoded_len_lb};
use crate::tables::{b64_char, b64_index};

verus! {

/// Encodes the whole-group range `input[from..upto]` (a multiple of three
/// bytes) into `output` starting at `out_from`, four bytes per group.
#[verifier::rlimit(80)]
pub(crate) fn encode_run(
    url_safe: bool,
    padding: bool,
    input: &[u8],
    from: usize,
    upto: usize,
    output: &mut [u8],
    out_from: usize,
)
    requires
        from <= upto <= input@.len(),
        (upto - from) % 3 == 0,
        out_from + ((upto - from) / 3) * 4 <= old(output)@.len(),
    ensures
        final(output)@.len() == old(output)@.len(),
        final(output)@.subrange(0, out_from as int) == old(output)@.subrange(0, out_from as int),
        final(output)@.skip(out_from + ((upto - from) as int / 3) * 4) == old(output)@.skip(
            out_from + ((upto - from) as int / 3) * 4,
        ),
        final(output)@.subrange(out_from as int, out_from + ((upto - from) as int / 3) * 4) == encoding(
            url_safe,
            padding,
            input@.subrange(from as int, upto as int),
        ),
{
    let ghost out0 = old(output)@;
    let ghost oend = out_from + ((upto - from) as int / 3) * 4;
    let mut i: usize = from;
    let mut o: usize = out_from;
    while i < upto
        invariant
            from <= i <= upto <= input@.len(),
            (upto - from) % 3 == 0,
            (i - from) % 3 == 0,
            o == out_from + ((i - from) as int / 3) * 4,
            oend == out_from + ((upto - from) as int / 3) * 4,
            oend <= output@.len(),
            out0 == old(output)@,
            output@.len() == out0.len(),
            output@.subrange(0, out_from as int) == out0.subrange(0, out_from as int),
            output@.skip(oend) == out0.skip(oend),
            output@.subrange(out_from as int, o as int) == encoding(
                url_safe,
                padding,
                input@.subrange(from as int, i as int),
            ),
        decreases upto - i,
    {
        proof {
            assert(((i + 3 - from) as int) / 3 == ((i - from) as int) / 3 + 1);
            assert(((i - from) as int) / 3 + 1 <= ((upto - from) as int) / 3);
        }
        let b0 = input[i];
        let b1 = input[i + 1];
        let b2 = input[i + 2];
        let c0 = b64_char(url_safe, b0 / 4);
        let c1 = b64_char(url_safe, (b0 % 4) * 16 + b1 / 16);
        let c2 = b64_char(url_safe, (b1 % 16) * 4 + b2 / 64);
        let c3 = b64_char(url_safe, b2 % 64);
        let ghost pre = output@;
        output[o] = c0;
        output[o + 1] = c1;
        output[o + 2] = c2;
        output[o + 3] = c3;
        proof {
            let s3 = input@.subrange(i as int, i + 3);
            assert(s3.len() == 3 && s3[0] == b0 && s3[1] == b1 && s3[2] == b2);
            assert(s3.skip(3) =~= Seq::<u8>::empty());
            assert(encoding(url_safe, padding, Seq::<u8>::empty()) =~= Seq::<u8>::empty());
            assert(encoding(url_safe, padding, s3) =~= encode3(url_safe, b0, b1, b2) + encoding(
                url_safe,
                padding,
                s3.skip(3),
            ));
            assert(encoding(url_safe, padding, s3) =~= encode3(url_safe, b0, b1, b2));
            lemma_encoding_split(url_safe, padding, input@.subrange(from as int, i + 3), i - from);
            assert(input@.subrange(from as int, i + 3).take(i - from) =~= input@.subrange(
                from as int,
                i as int,
            ));
            assert(input@.subrange(from as int, i + 3).skip(i - from) =~= s3);
            assert(output@.subrange(0, out_from as int) =~= pre.subrange(0, out_from as int));
            assert(output@.skip(oend) =~= pre.skip(oend));
            assert(output@.subrange(out_from as int, o + 4) =~= pre.subrange(
                out_from as int,
                o as int,
            ) + encode3(url_safe, b0, b1, b2));
        }
        i += 3;
        o += 4;
    }
    proof {
        assert(input@.subrange(from as int, i as int) =~= input@.subrange(
            from as int,
            upto as int,
        ));
    }
}

/// Encodes `input[from..]` into `output` starting at `out_from`: the
/// whole-group prefix through `encode_run`, then the 1- or 2-byte tail with
/// its padding.
#[verifier::rlimit(100)]
pub(crate) fn encode_from(
    url_safe: bool,
    padding: bool,
    input: &[u8],
    from: usize,
    output: &mut [u8],
    out_from: usize,
)
    requires
        from <= input@.len(),
        out_from + encoded_len_of(padding, input@.len() - from) <= old(output)@.len(),
    ensures
        final(output)@.len() == old(output)@.len(),
        final(output)@.subrange(0, out_from as int) == old(output)@.subrange(0, out_from as int),
        final(output)@.skip(out_from + encoded_len_of(padding, input@.len() - from)) == old(
            output,
        )@.skip(out_from + encoded_len_of(padding, input@.len() - from)),
        final(output)@.subrange(
            out_from as int,
            out_from + encoded_len_of(padding, input@.len() - from),
        ) == encoding(url_safe, padding, input@.skip(from as int)),
{
    let ghost out0 = old(output)@;
    let ghost s = input@.skip(from as int);
    let ghost elen = encoded_len_of(padding, input@.len() - from);
    let len = input.len();
    let rel = len - from;
    let tail_len = rel % 3;
    let full = rel - tail_len;
    proof {
        lemma_encoding_len(url_safe, padding, s);
        lemma_encoding_len(url_safe, padding, s.skip(full as int));
        lemma_encoding_split(url_safe, padding, s, full as int);
        assert(s.take(full as int) =~= input@.subrange(from as int, (from + full) as int));
        assert(s.skip(full as int) =~= input@.skip((from + full) as int));
        lemma_encoding_len(url_safe, padding, s.take(full as int));
        assert((full as int) % 3 == 0);
        assert(encoded_len_of(padding, full as int) == ((full as int) / 3) * 4);
        assert(elen == ((full as int) / 3) * 4 + encoded_len_of(padding, tail_len as int));
    }
    encode_run(url_safe, padding, input, from, from + full, output, out_from);
    proof {
        assert(encoded_len_of(padding, tail_len as int) >= 0);
        assert(out_from + ((full as int) / 3) * 4 <= out_from + elen);
    }
    // The buffer length is a machine word; record that for the bounds below.
    let _avail = output.len();
    let o = out_from + (full / 3) * 4;
    let ghost mid = output@;
    proof {
        let x = out_from + elen;
        let rn = out_from + ((full as int) / 3) * 4;
        assert forall|j: int| 0 <= j < mid.len() - x implies mid.skip(x)[j] == out0.skip(x)[j] by {
            assert(mid.skip(rn)[x + j - rn] == out0.skip(rn)[x + j - rn]);
            assert(mid.skip(rn)[x + j - rn] == mid[x + j]);
            assert(out0.skip(rn)[x + j - rn] == out0[x + j]);
        }
        assert(mid.skip(x) =~= out0.skip(x));
    }
    if tail_len > 0 {
        let b0 = input[from + full];
        let b1 = if tail_len == 2 {
            input[from + full + 1]
        } else {
            0
        };
        let c0 = b64_char(url_safe, b0 / 4);
        let c1 = b64_char(url_safe, (b0 % 4) * 16 + b1 / 16);
        output[o] = c0;
        output[o + 1] = c1;
        if tail_len == 2 {
            output[o + 2] = b64_char(url_safe, (b1 % 16) * 4);
            if padding {
                output[o + 3] = 61;
            }
        } else {
            if padding {
                output[o + 2] = 61;
                output[o + 3] = 61;
            }
        }
        proof {
            let t = s.skip(full as int);
            assert(t.len() == tail_len);
            if tail_len == 2 {
                assert(t[0] == b0 && t[1] == b1);
            } else {
                assert(t[0] == b0 && b1 == 0);
            }
            assert(output@.subrange(out_from as int, o as int) =~= mid.subrange(
                out_from as int,
                o as int,
            ));
            assert(output@.subrange(o as int, out_from + elen) =~= encoding(
                url_safe,
                padding,
                t,
            ));
            assert(output@.subrange(out_from as int, out_from + elen) =~= output@.subrange(
                out_from as int,
                o as int,
            ) + output@.subrange(o as int, out_from + elen));
            assert(output@.subrange(0, out_from as int) =~= mid.subrange(0, out_from as int));
            assert(output@.skip(out_from + elen) =~= mid.skip(out_from + elen));
        }
    } else {
        proof {
            assert(elen == ((full as int) / 3) * 4);
            assert(s.skip(full as int) =~= Seq::<u8>::empty());
            assert(encoding(url_safe, padding, s) =~= encoding(
                url_safe,
                padding,
                s.take(full as int),
            ));
            assert(output@.subrange(out_from as int, out_from + elen) =~= output@.subrange(
                out_from as int,
                o as int,
            ));
        }
    }
}

/// Decodes the whole-group range `input[from..upto]` (a multiple of four
/// bytes, ending at least four bytes before the end of the input, so that
/// no legal padding can fall inside it) into `output` starting at
/// `out_from`, three bytes per group. Any byte that is not an alphabet
/// member, the padding byte included, fails the run.
#[verifier::rlimit(80)]
pub(crate) fn decode_run(
    url_safe: bool,
    padding: bool,
    input: &[u8],
    from: usize,
    upto: usize,
    output: &mut [u8],
    out_from: usize,
) -> (ok: bool)
    requires
        from <= upto,
        upto + 4 <= input@.len(),
        (upto - from) % 4 == 0,
        out_from + ((upto - from) / 4) * 3 <= old(output)@.len(),
    ensures
        final(output)@.len() == old(output)@.len(),
        final(output)@.subrange(0, out_from as int) == old(output)@.subrange(0, out_from as int),
        final(output)@.skip(out_from + ((upto - from) as int / 4) * 3) == old(output)@.skip(
            out_from + ((upto - from) as int / 4) * 3,
        ),
        ok ==> decoding(url_safe, padding, input@.skip(from as int)) == prefixed(
            final(output)@.subrange(out_from as int, out_from + ((upto - from) as int / 4) * 3),
            decoding(url_safe, padding, input@.skip(upto as int)),
        ),
        !ok ==> decoding(url_safe, padding, input@.skip(from as int)) == Err::<Seq<u8>, Error>(
            Error::InvalidCharacter,
        ),
{
    let ghost out0 = old(output)@;
    let ghost oend = out_from + ((upto - from) as int / 4) * 3;
    let mut i: usize = from;
    let mut o: usize = out_from;
    while i < upto
        invariant
            from <= i <= upto,
            upto + 4 <= input@.len(),
            (upto - from) % 4 == 0,
            (i - from) % 4 == 0,
            o == out_from + ((i - from) as int / 4) * 3,
            oend == out_from + ((upto - from) as int / 4) * 3,
            oend <= output@.len(),
            out0 == old(output)@,
            output@.len() == out0.len(),
            output@.subrange(0, out_from as int) == out0.subrange(0, out_from as int),
            output@.skip(oend) == out0.skip(oend),
            decoding(url_safe, padding, input@.skip(from as int)) == prefixed(
                output@.subrange(out_from as int, o as int),
                decoding(url_safe, padding, input@.skip(i as int)),
            ),
        decreases upto - i,
    {
        proof {
            assert(((i + 4 - from) as int) / 4 == ((i - from) as int) / 4 + 1);
            assert(((i - from) as int) / 4 + 1 <= ((upto - from) as int) / 4);
        }
        let d0 = b64_index(url_safe, input[i]);
        let d1 = b64_index(url_safe, input[i + 1]);
        let d2 = b64_index(url_safe, input[i + 2]);
        let d3 = b64_index(url_safe, input[i + 3]);
        // OR-accumulation: any invalid lookup sets one of the top two bits.
        if (d0 | d1 | d2 | d3) & 0xC0 != 0 {
            proof {
                assert((d0 | d1 | d2 | d3) & 0xC0 != 0 ==> (d0 >= 64 || d1 >= 64 || d2 >= 64 || d3
                    >= 64)) by (bit_vector);
                let t = input@.skip(i as int);
                assert(t.len() == input@.len() - i >= 8);
                assert(t[0] == input@[i as int] && t[1] == input@[i + 1] && t[2] == input@[i + 2]
                    && t[3] == input@[i + 3]);
                assert(b64_index_of(url_safe, 61u8) == 255);
                assert(decoding(url_safe, padding, t) == Err::<Seq<u8>, Error>(
                    Error::InvalidCharacter,
                ));
            }
            return false;
        }
        proof {
            assert((d0 | d1 | d2 | d3) & 0xC0 == 0 ==> (d0 < 64 && d1 < 64 && d2 < 64 && d3
                < 64)) by (bit_vector);
        }
        let b0 = d0 * 4 + d1 / 16;
        let b1 = (d1 % 16) * 16 + d2 / 4;
        let b2 = (d2 % 4) * 64 + d3;
        let ghost pre = output@;
        output[o] = b0;
        output[o + 1] = b1;
        output[o + 2] = b2;
        proof {
            let t = input@.skip(i as int);
            assert(t.len() == input@.len() - i >= 8);
            assert(t[0] == input@[i as int] && t[1] == input@[i + 1] && t[2] == input@[i + 2]
                && t[3] == input@[i + 3]);
            assert(b64_index_of(url_safe, 61u8) == 255);
            assert(t[3] != 61);
            assert(t.skip(4) =~= input@.skip(i + 4));
            let g = seq![b0, b1, b2];
            assert(dec_b0(d0, d1) == b0 && dec_b1(d1, d2) == b1 && dec_b2(d2, d3) == b2);
            assert(decoding(url_safe, padding, t) == prefixed(
                g,
                decoding(url_safe, padding, input@.skip(i + 4)),
            ));
            assert(output@.subrange(0, out_from as int) =~= pre.subrange(0, out_from as int));
            assert(output@.skip(oend) =~= pre.skip(oend));
            assert(output@.subrange(out_from as int, o + 3) =~= pre.subrange(
                out_from as int,
                o as int,
            ) + g);
            let w = pre.subrange(out_from as int, o as int);
            match decoding(url_safe, padding, input@.skip(i + 4)) {
                Ok(v) => {
                    assert((w + g) + v =~= w + (g + v));
                },
                Err(_) => {},
            }
            assert(decoding(url_safe, padding, input@.skip(from as int)) == prefixed(
                output@.subrange(out_from as int, o + 3),
                decoding(url_safe, padding, input@.skip(i + 4)),
            ));
        }
        i += 4;
        o += 3;
    }
    true
}

/// Decodes the trailing part of the input, group by group: a padded group
/// terminates the stream and must be the final group; a remainder of two or
/// three bytes is accepted only without required padding.
#[verifier::rlimit(100)]
pub(crate) fn decode_tail(
    url_safe: bool,
    padding: bool,
    input: &[u8],
    from: usize,
    output: &mut [u8],
    out_from: usize,
) -> (r: Result<usize, Error>)
    requires
        from <= input@.len(),
        out_from + ((input@.len() - from) / 4 + 1) * 3 <= old(output)@.len(),
    ensures
        final(output)@.len() == old(output)@.len(),
        final(output)@.subrange(0, out_from as int) == old(output)@.subrange(0, out_from as int),
        match r {
            Ok(m) => out_from + m <= final(output)@.len() && decoding(
                url_safe,
                padding,
                input@.skip(from as int),
            ) == Ok::<Seq<u8>, Error>(
                final(output)@.subrange(out_from as int, out_from + m),
            ) && final(output)@.skip(out_from + m) == old(output)@.skip(out_from + m),
            Err(e) => decoding(url_safe, padding, input@.skip(from as int)) == Err::<
                Seq<u8>,
                Error,
            >(e),
        },
{
    let ghost out0 = old(output)@;
    let len = input.len();
    let mut i: usize = from;
    let mut o: usize = out_from;
    proof {
        let w0 = output@.subrange(out_from as int, out_from as int);
        assert(w0 =~= Seq::<u8>::empty());
        match decoding(url_safe, padding, input@.skip(from as int)) {
            Ok(v) => {
                assert(w0 + v =~= v);
            },
            Err(_) => {},
        }
    }
    while len - i >= 4
        invariant
            from <= i <= len,
            len == input@.len(),
            (i - from) % 4 == 0,
            o == out_from + ((i - from) as int / 4) * 3,
            out_from + ((len - from) as int / 4 + 1) * 3 <= output@.len(),
            out0 == old(output)@,
            output@.len() == out0.len(),
            output@.subrange(0, out_from as int) == out0.subrange(0, out_from as int),
            output@.skip(o as int) == out0.skip(o as int),
            decoding(url_safe, padding, input@.skip(from as int)) == prefixed(
                output@.subrange(out_from as int, o as int),
                decoding(url_safe, padding, input@.skip(i as int)),
            ),
        decreases len - i,
    {
        proof {
            assert(((i + 4 - from) as int) / 4 == ((i - from) as int) / 4 + 1);
            assert(((i - from) as int) / 4 + 1 <= ((len - from) as int) / 4);
        }
        let ghost t = input@.skip(i as int);
        let ghost w = output@.subrange(out_from as int, o as int);
        proof {
            assert(t.len() == len - i >= 4);
            assert(t[0] == input@[i as int] && t[1] == input@[i + 1] && t[2] == input@[i + 2]
                && t[3] == input@[i + 3]);
            assert(b64_index_of(url_safe, 61u8) == 255);
        }
        let b3 = input[i + 3];
        if b3 == 61 {
            // A padded group terminates the input: anything after it is an
            // error, exactly as a padding byte inside the fast run is.
            if len - i != 4 {
                return Err(Error::InvalidCharacter);
            }
            let d0 = b64_index(url_safe, input[i]);
            let d1 = b64_index(url_safe, input[i + 1]);
            let b2 = input[i + 2];
            if b2 == 61 {
                if d0 >= 64 || d1 >= 64 {
                    return Err(Error::InvalidCharacter);
                }
                let ghost pre = output@;
                output[o] = d0 * 4 + d1 / 16;
                proof {
                    assert(decoding(url_safe, padding, t) == Ok::<Seq<u8>, Error>(
                        seq![dec_b0(d0, d1)],
                    ));
                    assert(output@.subrange(out_from as int, o + 1) =~= w + seq![dec_b0(d0, d1)]);
                    assert(output@.subrange(0, out_from as int) =~= pre.subrange(
                        0,
                        out_from as int,
                    ));
                    assert(output@.skip(o + 1) =~= pre.skip(o + 1));
                    lemma_skip_mono(pre, out0, o as int, o + 1);
                }
                return Ok(o + 1 - out_from);
            } else {
                let d2 = b64_index(url_safe, b2);
                if d0 >= 64 || d1 >= 64 || d2 >= 64 {
                    return Err(Error::InvalidCharacter);
                }
                let ghost pre = output@;
                output[o] = d0 * 4 + d1 / 16;
                output[o + 1] = (d1 % 16) * 16 + d2 / 4;
                proof {
                    assert(decoding(url_safe, padding, t) == Ok::<Seq<u8>, Error>(
                        seq![dec_b0(d0, d1), dec_b1(d1, d2)],
                    ));
                    assert(output@.subrange(out_from as int, o + 2) =~= w + seq![
                        dec_b0(d0, d1),
                        dec_b1(d1, d2),
                    ]);
                    assert(output@.subrange(0, out_from as int) =~= pre.subrange(
                        0,
                        out_from as int,
                    ));
                    assert(output@.skip(o + 2) =~= pre.skip(o + 2));
                    lemma_skip_mono(pre, out0, o as int, o + 2);
                }
                return Ok(o + 2 - out_from);
            }
        }
        let d0 = b64_index(url_safe, input[i]);
        let d1 = b64_index(url_safe, input[i + 1]);
        let d2 = b64_index(url_safe, input[i + 2]);
        let d3 = b64_index(url_safe, b3);
        if d0 >= 64 || d1 >= 64 || d2 >= 64 || d3 >= 64 {
            return Err(Error::InvalidCharacter);
        }
        let ghost pre = output@;
        output[o] = d0 * 4 + d1 / 16;
        output[o + 1] = (d1 % 16) * 16 + d2 / 4;
        output[o + 2] = (d2 % 4) * 64 + d3;
        proof {
            let g = seq![dec_b0(d0, d1), dec_b1(d1, d2), dec_b2(d2, d3)];
            assert(t.skip(4) =~= input@.skip(i + 4));
            assert(decoding(url_safe, padding, t) == prefixed(
                g,
                decoding(url_safe, padding, input@.skip(i + 4)),
            ));
            assert(output@.subrange(out_from as int, o + 3) =~= w + g);
            assert(output@.subrange(0, out_from as int) =~= pre.subrange(0, out_from as int));
            assert(output@.skip(o + 3) =~= pre.skip(o + 3));
            lemma_skip_mono(pre, out0, o as int, o + 3);
            match decoding(url_safe, padding, input@.skip(i + 4)) {
                Ok(v) => {
                    assert((w + g) + v =~= w + (g + v));
                },
                Err(_) => {},
            }
        }
        i += 4;
        o += 3;
    }
    // Remainder of fewer than four bytes.
    let rem = len - i;
    let ghost t = input@.skip(i as int);
    let ghost w = output@.subrange(out_from as int, o as int);
    proof {
        assert(t.len() == rem);
        if rem > 0 {
            assert(t[0] == input@[i as int]);
            if rem >= 2 {
                assert(t[1] == input@[i + 1]);
            }
            if rem == 3 {
                assert(t[2] == input@[i + 2]);
            }
        }
    }
    if rem == 0 {
        proof {
            assert(decoding(url_safe, padding, t) == Ok::<Seq<u8>, Error>(Seq::<u8>::empty()));
            assert(w + Seq::<u8>::empty() =~= w);
        }
        return Ok(o - out_from);
    }
    if padding {
        return Err(Error::InvalidLength);
    }
    if rem == 1 {
        return Err(Error::InvalidLength);
    }
    let d0 = b64_index(url_safe, input[i]);
    let d1 = b64_index(url_safe, input[i + 1]);
    if rem == 2 {
        if d0 >= 64 || d1 >= 64 {
            return Err(Error::InvalidCharacter);
        }
        let ghost pre = output@;
        output[o] = d0 * 4 + d1 / 16;
        proof {
            assert(decoding(url_safe, padding, t) == Ok::<Seq<u8>, Error>(seq![dec_b0(d0, d1)]));
            assert(output@.subrange(out_from as int, o + 1) =~= w + seq![dec_b0(d0, d1)]);
            assert(output@.subrange(0, out_from as int) =~= pre.subrange(0, out_from as int));
            assert(output@.skip(o + 1) =~= pre.skip(o + 1));
            lemma_skip_mono(pre, out0, o as int, o + 1);
        }
        return Ok(o + 1 - out_from);
    }
    let d2 = b64_index(url_safe, input[i + 2]);
    if d0 >= 64 || d1 >= 64 || d2 >= 64 {
        return Err(Error::InvalidCharacter);
    }
    let ghost pre = output@;
    output[o] = d0 * 4 + d1 / 16;
    output[o + 1] = (d1 % 16) * 16 + d2 / 4;
    proof {
        assert(decoding(url_safe, padding, t) == Ok::<Seq<u8>, Error>(
            seq![dec_b0(d0, d1), dec_b1(d1, d2)],
        ));
        assert(output@.subrange(out_from as int, o + 2) =~= w + seq![
            dec_b0(d0, d1),
            dec_b1(d1, d2),
        ]);
        assert(output@.subrange(0, out_from as int) =~= pre.subrange(0, out_from as int));
        assert(output@.skip(o + 2) =~= pre.skip(o + 2));
        lemma_skip_mono(pre, out0, o as int, o + 2);
    }
    Ok(o + 2 - out_from)
}

/// Decodes `input[from..]` into `output` starting at `out_from`: a fast run
/// over whole groups that keeps a four-byte margin, then the tail handler
/// that resolves padding, remainders and termination.
#[verifier::rlimit(100)]
pub(crate) fn decode_from(
    url_safe: bool,
    padding: bool,
    input: &[u8],
    from: usize,
    output: &mut [u8],
    out_from: usize,
) -> (r: Result<usize, Error>)
    requires
        from <= input@.len(),
        out_from + ((input@.len() - from) / 4 + 1) * 3 <= old(output)@.len(),
    ensures
        final(output)@.len() == old(output)@.len(),
        final(output)@.subrange(0, out_from as int) == old(output)@.subrange(0, out_from as int),
        match r {
            Ok(m) => out_from + m <= final(output)@.len() && decoding(
                url_safe,
                padding,
                input@.skip(from as int),
            ) == Ok::<Seq<u8>, Error>(
                final(output)@.subrange(out_from as int, out_from + m),
            ) && final(output)@.skip(out_from + m) == old(output)@.skip(out_from + m),
            Err(e) => decoding(url_safe, padding, input@.skip(from as int)) == Err::<
                Seq<u8>,
                Error,
            >(e),
        },
{
    let ghost out0 = old(output)@;
    let len = input.len();
    let rel = len - from;
    if rel < 4 {
        return decode_tail(url_safe, padding, input, from, output, out_from);
    }
    let safe = rel - 4;
    let fast = safe - safe % 8;
    proof {
        assert((fast as int) % 4 == 0) by (nonlinear_arith)
            requires
                fast == (rel - 4) - (rel - 4) % 8int,
                rel >= 4,
        ;
        assert((fast as int) / 4 + ((rel - fast) as int) / 4 == (rel as int) / 4)
            by (nonlinear_arith)
            requires
                (fast as int) % 4 == 0,
                0 <= fast <= rel,
        ;
    }
    // The buffer length is a machine word; record that for the bounds below.
    let _avail = output.len();
    if fast == 0 {
        return decode_tail(url_safe, padding, input, from, output, out_from);
    }
    let ok = decode_run(url_safe, padding, input, from, from + fast, output, out_from);
    if !ok {
        return Err(Error::InvalidCharacter);
    }
    let i = from + fast;
    let o = out_from + (fast / 4) * 3;
    let ghost mid = output@;
    let ghost w = mid.subrange(out_from as int, o as int);
    let r2 = decode_tail(url_safe, padding, input, i, output, o);
    proof {
        assert forall|j: int| 0 <= j < o implies output@[j] == mid[j] by {
            assert(output@.subrange(0, o as int)[j] == mid.subrange(0, o as int)[j]);
        }
        assert(output@.subrange(out_from as int, o as int) =~= w);
        assert(output@.subrange(0, out_from as int) =~= out0.subrange(0, out_from as int));
    }
    match r2 {
        Ok(m2) => {
            proof {
                let v2 = output@.subrange(o as int, o + m2);
                assert(decoding(url_safe, padding, input@.skip(from as int)) == Ok::<
                    Seq<u8>,
                    Error,
                >(w + v2));
                assert(w + v2 =~= output@.subrange(out_from as int, o + m2));
                lemma_skip_mono(mid, out0, o as int, o + m2);
            }
            Ok(o + m2 - out_from)
        },
        Err(e) => {
            Err(e)
        },
    }
}

/// Extends an encode in progress: with `input[..i]` already encoded at the
/// start of `output`, encodes the whole-group range `input[i..upto]` after
/// it. The wider kernels call this once per block region.
#[verifier::rlimit(100)]
pub(crate) fn encode_step(
    url_safe: bool,
    padding: bool,
    input: &[u8],
    i: usize,
    upto: usize,
    output: &mut [u8],
)
    requires
        i <= upto <= input@.len(),
        i % 3 == 0,
        (upto - i) % 3 == 0,
        (upto / 3) * 4 <= old(output)@.len(),
        old(output)@.subrange(0, ((i / 3) * 4) as int) == encoding(
            url_safe,
            padding,
            input@.take(i as int),
        ),
    ensures
        final(output)@.len() == old(output)@.len(),
        final(output)@.skip(((upto / 3) * 4) as int) == old(output)@.skip(
            ((upto / 3) * 4) as int,
        ),
        final(output)@.subrange(0, ((upto / 3) * 4) as int) == encoding(
            url_safe,
            padding,
            input@.take(upto as int),
        ),
{
    let ghost out0 = old(output)@;
    proof {
        assert((i as int) / 3 + ((upto - i) as int) / 3 == (upto as int) / 3) by (nonlinear_arith)
            requires
                (i as int) % 3 == 0,
                0 <= i <= upto,
        ;
    }
    // The buffer length is a machine word; record that for the bounds below.
    let _avail = output.len();
    proof {
        assert(((i as int) / 3) * 4 <= ((upto as int) / 3) * 4);
    }
    let o = (i / 3) * 4;
    encode_run(url_safe, padding, input, i, upto, output, o);
    proof {
        let oend = ((upto as int) / 3) * 4;
        lemma_encoding_split(url_safe, padding, input@.take(upto as int), i as int);
        assert(input@.take(upto as int).take(i as int) =~= input@.take(i as int));
        assert(input@.take(upto as int).skip(i as int) =~= input@.subrange(
            i as int,
            upto as int,
        ));
        assert(output@.subrange(0, o as int) =~= out0.subrange(0, o as int));
        assert(output@.subrange(0, oend) =~= output@.subrange(0, o as int) + output@.subrange(
            o as int,
            oend,
        ));
    }
}

/// Finishes an encode in progress: with `input[..i]` already encoded at the
/// start of `output`, encodes the rest, tail and padding included.
#[verifier::rlimit(100)]
pub(crate) fn encode_finish(url_safe: bool, padding: bool, input: &[u8], i: usize, output: &mut [u8])
    requires
        i <= input@.len(),
        i % 3 == 0,
        encoded_len_of(padding, input@.len() as int) <= old(output)@.len(),
        old(output)@.subrange(0, ((i / 3) * 4) as int) == encoding(
            url_safe,
            padding,
            input@.take(i as int),
        ),
    ensures
        final(output)@.len() == old(output)@.len(),
        final(output)@.skip(encoded_len_of(padding, input@.len() as int)) == old(output)@.skip(
            encoded_len_of(padding, input@.len() as int),
        ),
        final(output)@.subrange(0, encoded_len_of(padding, input@.len() as int)) == encoding(
            url_safe,
            padding,
            input@,
        ),
{
    let ghost out0 = old(output)@;
    let ghost elen = encoded_len_of(padding, input@.len() as int);
    proof {
        lemma_encoding_split(url_safe, padding, input@, i as int);
        lemma_encoding_len(url_safe, padding, input@.take(i as int));
        lemma_encoding_len(url_safe, padding, input@.skip(i as int));
        lemma_encoding_len(url_safe, padding, input@);
        assert(input@.take(i as int).len() == i);
        assert(encoded_len_of(padding, i as int) == ((i as int) / 3) * 4);
        assert(elen == ((i as int) / 3) * 4 + encoded_len_of(padding, input@.len() - i));
    }
    // The buffer length is a machine word; record that for the bounds below.
    let _avail = output.len();
    proof {
        assert(encoded_len_of(padding, input@.len() - i) >= 0);
        assert(((i as int) / 3) * 4 <= elen);
    }
    let o = (i / 3) * 4;
    encode_from(url_safe, padding, input, i, output, o);
    proof {
        assert(output@.subrange(0, o as int) =~= out0.subrange(0, o as int));
        assert(output@.subrange(0, elen) =~= output@.subrange(0, o as int) + output@.subrange(
            o as int,
            elen,
        ));
        lemma_skip_mono(output@, out0, elen, elen);
    }
}

/// Extends a decode in progress: with `input[..i]` already decoded at the
/// start of `output`, decodes the whole-group range `input[i..upto]` after
/// it, rejecting any byte outside the alphabet. The range must end at least
/// four bytes before the end of the input.
#[verifier::rlimit(100)]
pub(crate) fn decode_step(
    url_safe: bool,
    padding: bool,
    input: &[u8],
    i: usize,
    upto: usize,
    output: &mut [u8],
) -> (ok: bool)
    requires
        i <= upto,
        upto + 4 <= input@.len(),
        i % 4 == 0,
        (upto - i) % 4 == 0,
        (upto / 4) * 3 <= old(output)@.len(),
        decoding(url_safe, padding, input@) == prefixed(
            old(output)@.subrange(0, ((i / 4) * 3) as int),
            decoding(url_safe, padding, input@.skip(i as int)),
        ),
    ensures
        final(output)@.len() == old(output)@.len(),
        final(output)@.skip(((upto / 4) * 3) as int) == old(output)@.skip(
            ((upto / 4) * 3) as int,
        ),
        ok ==> decoding(url_safe, padding, input@) == prefixed(
            final(output)@.subrange(0, ((upto / 4) * 3) as int),
            decoding(url_safe, padding, input@.skip(upto as int)),
        ),
        !ok ==> decoding(url_safe, padding, input@) == Err::<Seq<u8>, Error>(
            Error::InvalidCharacter,
        ),
{
    let ghost out0 = old(output)@;
    proof {
        assert((i as int) / 4 + ((upto - i) as int) / 4 == (upto as int) / 4) by (nonlinear_arith)
            requires
                (i as int) % 4 == 0,
                0 <= i <= upto,
        ;
    }
    // The buffer length is a machine word; record that for the bounds below.
    let _avail = output.len();
    proof {
        assert(((i as int) / 4) * 3 <= ((upto as int) / 4) * 3);
    }
    let o = (i / 4) * 3;
    let ok = decode_run(url_safe, padding, input, i, upto, output, o);
    proof {
        let oend = ((upto as int) / 4) * 3;
        let w = out0.subrange(0, o as int);
        assert(output@.subrange(0, o as int) =~= w);
        if ok {
            let w2 = output@.subrange(o as int, oend);
            assert(output@.subrange(0, oend) =~= w + w2);
            match decoding(url_safe, padding, input@.skip(upto as int)) {
                Ok(v) => {
                    assert((w + w2) + v =~= w + (w2 + v));
                },
                Err(_) => {},
            }
        }
    }
    ok
}

/// Finishes a decode in progress: with `input[..i]` already decoded at the
/// start of `output`, decodes the rest through the scalar tail logic and
/// returns the total number of bytes written.
#[verifier::rlimit(100)]
pub(crate) fn decode_finish(
    url_safe: bool,
    padding: bool,
    input: &[u8],
    i: usize,
    output: &mut [u8],
) -> (r: Result<usize, Error>)
    requires
        i <= input@.len(),
        i % 4 == 0,
        ((input@.len() as int) / 4 + 1) * 3 <= old(output)@.len(),
        decoding(url_safe, padding, input@) == prefixed(
            old(output)@.subrange(0, ((i / 4) * 3) as int),
            decoding(url_safe, padding, input@.skip(i as int)),
        ),
    ensures
        final(output)@.len() == old(output)@.len(),
        match r {
            Ok(m) => m <= final(output)@.len() && decoding(url_safe, padding, input@) == Ok::<
                Seq<u8>,
                Error,
            >(final(output)@.subrange(0, m as int)) && final(output)@.skip(m as int) == old(
                output,
            )@.skip(m as int),
            Err(e) => decoding(url_safe, padding, input@) == Err::<Seq<u8>, Error>(e),
        },
{
    let ghost out0 = old(output)@;
    proof {
        assert((i as int) / 4 + ((input@.len() - i) as int) / 4 == (input@.len() as int) / 4)
            by (nonlinear_arith)
            requires
                (i as int) % 4 == 0,
                0 <= i <= input@.len(),
        ;
    }
    // The buffer length is a machine word; record that for the bounds below.
    let _avail = output.len();
    proof {
        assert(((i as int) / 4) * 3 <= ((input@.len() as int) / 4) * 3);
    }
    let o = (i / 4) * 3;
    let r = decode_from(url_safe, padding, input, i, output, o);
    match r {
        Ok(m2) => {
            proof {
                let w = out0.subrange(0, o as int);
                assert(output@.subrange(0, o as int) =~= w);
                let v2 = output@.subrange(o as int, o + m2);
                assert(w + v2 =~= output@.subrange(0, o + m2));
            }
            Ok(o + m2)
        },
        Err(e) => Err(e),
    }
}

/// The scalar decode kernel: on success returns how many bytes were
/// written at the start of `output`; on failure reports why the input is
/// not valid Base64 under the configuration.
pub fn decode_slice_unsafe(config: &Config, input: &[u8], output: &mut [u8]) -> (r: Result<
    usize,
    Error,
>)
    requires
        old(output)@.len() >= decoded_len_estimate_of(input@.len() as int),
    ensures
        final(output)@.len() == old(output)@.len(),
        match r {
            Ok(m) => m <= final(output)@.len() && decoding(config.url_safe, config.padding, input@)
                == Ok::<Seq<u8>, Error>(final(output)@.subrange(0, m as int))
                && final(output)@.skip(m as int) == old(output)@.skip(m as int),
            Err(e) => decoding(config.url_safe, config.padding, input@) == Err::<Seq<u8>, Error>(
                e,
            ),
        },
{
    let r = decode_from(config.url_safe, config.padding, input, 0, output, 0);
    proof {
        assert(input@.skip(0) =~= input@);
    }
    r
}

/// The scalar encode kernel. Writes exactly `encoded_len_of` bytes at the
/// start of `output` and leaves the rest of the buffer untouched.
pub fn encode_slice_unsafe(config: &Config, input: &[u8], output: &mut [u8])
    requires
        old(output)@.len() >= encoded_len_of(config.padding, input@.len() as int),
    ensures
        final(output)@.len() == old(output)@.len(),
        final(output)@.subrange(0, encoded_len_of(config.padding, input@.len() as int)) == encoding(
            config.url_safe,
            config.padding,
            input@,
        ),
        final(output)@.skip(encoded_len_of(config.padding, input@.len() as int)) == old(output)@.skip(
            encoded_len_of(config.padding, input@.len() as int),
        ),
{
    encode_from(config.url_safe, config.padding, input, 0, output, 0);
    proof {
        assert(input@.skip(0) =~= input@);
    }
}

/// Runs an encode as three stages: a leading region of large blocks, a
/// region of single blocks, and the scalar tail. The callers pick the two
/// whole-group boundaries `quad <= single`.
#[verifier::rlimit(100)]
pub(crate) fn encode_regions(
    url_safe: bool,
    padding: bool,
    input: &[u8],
    quad: usize,
    single: usize,
    output: &mut [u8],
)
    requires
        quad <= single <= input@.len(),
        quad % 3 == 0,
        single % 3 == 0,
        old(output)@.len() >= encoded_len_of(padding, input@.len() as int),
    ensures
        final(output)@.len() == old(output)@.len(),
        final(output)@.subrange(0, encoded_len_of(padding, input@.len() as int)) == encoding(
            url_safe,
            padding,
            input@,
        ),
        final(output)@.skip(encoded_len_of(padding, input@.len() as int)) == old(output)@.skip(
            encoded_len_of(padding, input@.len() as int),
        ),
{
    let u = url_safe;
    let p = padding;
    let ghost out0 = old(output)@;
    let ghost elen = encoded_len_of(p, input@.len() as int);
    let len = input.len();
    proof {
        lemma_encoded_len_lb(p, single as int, len as int);
        lemma_encoded_len_lb(p, quad as int, len as int);
        lemma_div_mul_le(quad as int, single as int, 3, 4);
        assert(input@.take(0) =~= Seq::<u8>::empty());
        assert(encoding(u, p, Seq::<u8>::empty()) =~= Seq::<u8>::empty());
        assert(output@.subrange(0, 0) =~= Seq::<u8>::empty());
    }
    if quad > 0 {
        encode_step(u, p, input, 0, quad, output);
    }
    proof {
        assert(output@.skip((((quad as int) / 3) * 4) as int) == out0.skip(
            (((quad as int) / 3) * 4) as int,
        ));
    }
    let ghost mid1 = output@;
    if single > quad {
        encode_step(u, p, input, quad, single, output);
    }
    proof {
        lemma_skip_mono(
            mid1,
            out0,
            (((quad as int) / 3) * 4) as int,
            (((single as int) / 3) * 4) as int,
        );
        assert(output@.skip((((single as int) / 3) * 4) as int) == out0.skip(
            (((single as int) / 3) * 4) as int,
        ));
        assert(output@.subrange(0, (((single as int) / 3) * 4) as int) == encoding(
            u,
            p,
            input@.take(single as int),
        ));
    }
    let ghost mid2 = output@;
    encode_finish(u, p, input, single, output);
    proof {
        assert(input@.take(len as int) =~= input@);
        lemma_skip_mono(mid2, out0, (((single as int) / 3) * 4) as int, elen);
        assert(final(output)@.skip(elen) == out0.skip(elen)) by {
            assert(output@.skip(elen) == mid2.skip(elen));
        }
    }
}

/// Runs a decode as three stages: a leading region of large blocks, a
/// region of single blocks, and the scalar tail. The callers pick the two
/// whole-group boundaries `quad <= single`, which must leave at least four
/// bytes of margin before the end of the input.
#[verifier::rlimit(100)]
pub(crate) fn decode_regions(
    url_safe: bool,
    padding: bool,
    input: &[u8],
    quad: usize,
    single: usize,
    output: &mut [u8],
) -> (r: Result<usize, Error>)
    requires
        quad <= single,
        quad % 4 == 0,
        single % 4 == 0,
        single == 0 || single + 4 <= input@.len(),
        single <= input@.len(),
        old(output)@.len() >= decoded_len_estimate_of(input@.len() as int),
    ensures
        final(output)@.len() == old(output)@.len(),
        match r {
            Ok(m) => m <= final(output)@.len() && decoding(url_safe, padding, input@) == Ok::<
                Seq<u8>,
                Error,
            >(final(output)@.subrange(0, m as int)) && final(output)@.skip(m as int) == old(
                output,
            )@.skip(m as int),
            Err(e) => decoding(url_safe, padding, input@) == Err::<Seq<u8>, Error>(e),
        },
{
    let u = url_safe;
    let p = padding;
    let ghost out0 = old(output)@;
    let len = input.len();
    proof {
        lemma_div_mul_le(single as int, len as int, 4, 3);
        lemma_div_mul_le(quad as int, single as int, 4, 3);
        assert(input@.skip(0) =~= input@);
        assert(output@.subrange(0, 0) =~= Seq::<u8>::empty());
        lemma_prefixed_empty(decoding(u, p, input@));
    }
    if quad > 0 {
        if !decode_step(u, p, input, 0, quad, output) {
            return Err(Error::InvalidCharacter);
        }
    }
    proof {
        assert(output@.skip((((quad as int) / 4) * 3) as int) == out0.skip(
            (((quad as int) / 4) * 3) as int,
        ));
    }
    let ghost mid1 = output@;
    if single > quad {
        if !decode_step(u, p, input, quad, single, output) {
            return Err(Error::InvalidCharacter);
        }
    }
    proof {
        lemma_skip_mono(
            mid1,
            out0,
            (((quad as int) / 4) * 3) as int,
            (((single as int) / 4) * 3) as int,
        );
        assert(output@.skip((((single as int) / 4) * 3) as int) == out0.skip(
            (((single as int) / 4) * 3) as int,
        ));
    }
    let ghost mid2 = output@;
    let r = decode_finish(u, p, input, single, output);
    proof {
        match r {
            Ok(m) => {
                lemma_skip_mono(mid2, out0, (((single as int) / 4) * 3) as int, m as int);
                assert(output@.skip(m as int) == out0.skip(m as int)) by {
                    assert(output@.skip(m as int) == mid2.skip(m as int));
                }
            },
            Err(_) => {},
        }
    }
    r
}

} // verus!
