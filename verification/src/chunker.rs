//! The parallel chunker: above a size threshold the input is split into
//! fixed, group-aligned chunks, each chunk is encoded or decoded
//! independently through the ordinary serial path on a worker pool, and the
//! pieces are reassembled. Chunk boundaries fall on whole groups, so the
//! assembled output is proved equal to what the serial path produces; a
//! failing chunk fails the whole call, and a chunk that ends in padding
//! before the end of the input is rejected exactly as the serial path
//! rejects an early padded group.

use vstd::prelude::*;
use rayon::iter::ParallelIterator;
use rayon::slice::ParallelSlice;
use crate::Config;
use crate::Engine;
use crate::Error;
use crate::model::{encoding, decoding, encoded_len_of, decoded_len_estimate_of, prefixed,
    lemma_encoding_split, lemma_encoding_len, lemma_decoding_chunk, lemma_decoded_len_bound,
    lemma_skip_mono, lemma_prefixed_empty};

verus! {

/// Input chunk size for parallel encoding: a multiple of 3, small enough to
/// stay cache-resident per worker.
pub const ENCODE_CHUNK_SIZE: usize = 24 * 1024;

/// Input chunk size for parallel decoding: the encoded image of an encode
/// chunk, a multiple of 4.
pub const DECODE_CHUNK_SIZE: usize = 32 * 1024;

/// Inputs at least this large are worth fanning out to a worker pool.
pub const PARALLEL_THRESHOLD: usize = 512 * 1024;

/// How many chunks of size `c` cover a sequence of length `len`.
pub open spec fn n_chunks(len: int, c: int) -> int {
    (len + c - 1) / c
}

/// Where chunk `k` of size `c` ends within a sequence of length `len`.
pub open spec fn chunk_end(len: int, c: int, k: int) -> int {
    if (k + 1) * c <= len {
        (k + 1) * c
    } else {
        len
    }
}

/// Boundary facts about the chunk decomposition.
proof fn lemma_chunking(len: int, c: int, k: int)
    requires
        len > 0,
        c > 0,
        0 <= k < n_chunks(len, c),
    ensures
        0 <= k * c < len,
        k * c < chunk_end(len, c, k) <= len,
        chunk_end(len, c, k) - k * c <= c,
        k < n_chunks(len, c) - 1 ==> chunk_end(len, c, k) == (k + 1) * c,
        k == n_chunks(len, c) - 1 ==> chunk_end(len, c, k) == len,
{
    assert(0 <= k * c < len && (k + 1) * c - k * c == c && (k < (len + c - 1) / c - 1 ==> (k + 1)
        * c < len) && (k == (len + c - 1) / c - 1 ==> len <= (k + 1) * c)) by (nonlinear_arith)
        requires
            len > 0,
            c > 0,
            0 <= k < (len + c - 1) / c,
    ;
}

/// Encodes one chunk into a fresh vector through the serial path.
fn encode_chunk_owned(config: &Config, chunk: &[u8]) -> (r: Vec<u8>)
    requires
        chunk@.len() <= ENCODE_CHUNK_SIZE,
    ensures
        r@ == encoding(config.url_safe, config.padding, chunk@),
{
    let eng = Engine { config: *config };
    proof {
        assert(encoded_len_of(config.padding, chunk@.len() as int) <= usize::MAX);
    }
    let elen = eng.encoded_len(chunk.len());
    let mut out: Vec<u8> = vec![0u8; elen];
    let res = eng.encode_into(chunk, out.as_mut_slice());
    match res {
        Ok(_) => {},
        Err(_) => {
            proof {
                assert(false);
            }
        },
    }
    proof {
        assert(out@ =~= encoding(config.url_safe, config.padding, chunk@));
    }
    out
}

/// Decodes one chunk into a fresh vector through the serial path.
fn decode_chunk_owned(config: &Config, chunk: &[u8]) -> (r: Result<Vec<u8>, Error>)
    requires
        chunk@.len() <= DECODE_CHUNK_SIZE,
    ensures
        match r {
            Ok(v) => decoding(config.url_safe, config.padding, chunk@) == Ok::<Seq<u8>, Error>(v@),
            Err(e) => decoding(config.url_safe, config.padding, chunk@) == Err::<Seq<u8>, Error>(
                e,
            ),
        },
{
    let eng = Engine { config: *config };
    proof {
        assert(decoded_len_estimate_of(chunk@.len() as int) <= usize::MAX);
    }
    eng.decode(chunk)
}

/// Relies on rayon's `par_chunks`, `map` and `collect`: `par_chunks` yields
/// the consecutive disjoint chunks of the slice in order, every one of the
/// chunk size but a shorter final one; `map` applies `encode_chunk_owned`
/// to each; `collect` gathers the results in chunk order.
#[verifier::external_body]
fn par_encode_chunks(config: &Config, input: &[u8]) -> (r: Vec<Vec<u8>>)
    requires
        input@.len() > 0,
    ensures
        r@.len() == n_chunks(input@.len() as int, ENCODE_CHUNK_SIZE as int),
        forall|k: int|
            0 <= k < r@.len() ==> r@[k]@ == encoding(
                config.url_safe,
                config.padding,
                input@.subrange(
                    k * ENCODE_CHUNK_SIZE as int,
                    chunk_end(input@.len() as int, ENCODE_CHUNK_SIZE as int, k),
                ),
            ),
{
    input.par_chunks(ENCODE_CHUNK_SIZE).map(|c: &[u8]| encode_chunk_owned(config, c)).collect()
}

/// Relies on rayon's `par_chunks`, `map` and `collect`, as the encoding
/// wrapper does; each chunk's outcome is what `decode_chunk_owned` returns
/// for it, in chunk order.
#[verifier::external_body]
fn par_decode_chunks(config: &Config, input: &[u8]) -> (r: Vec<Result<Vec<u8>, Error>>)
    requires
        input@.len() > 0,
    ensures
        r@.len() == n_chunks(input@.len() as int, DECODE_CHUNK_SIZE as int),
        forall|k: int|
            #![trigger r@[k]]
            0 <= k < r@.len() ==> match r@[k] {
                Ok(v) => decoding(
                    config.url_safe,
                    config.padding,
                    input@.subrange(
                        k * DECODE_CHUNK_SIZE as int,
                        chunk_end(input@.len() as int, DECODE_CHUNK_SIZE as int, k),
                    ),
                ) == Ok::<Seq<u8>, Error>(v@),
                Err(e) => decoding(
                    config.url_safe,
                    config.padding,
                    input@.subrange(
                        k * DECODE_CHUNK_SIZE as int,
                        chunk_end(input@.len() as int, DECODE_CHUNK_SIZE as int, k),
                    ),
                ) == Err::<Seq<u8>, Error>(e),
            },
{
    input.par_chunks(DECODE_CHUNK_SIZE).map(|c: &[u8]| decode_chunk_owned(config, c)).collect()
}

/// Copies a slice into `output` at `at`, leaving everything else unchanged.
fn copy_at(src: &[u8], output: &mut [u8], at: usize)
    requires
        at + src@.len() <= old(output)@.len(),
    ensures
        final(output)@.len() == old(output)@.len(),
        final(output)@.subrange(0, at as int) == old(output)@.subrange(0, at as int),
        final(output)@.subrange(at as int, at + src@.len()) == src@,
        final(output)@.skip(at + src@.len()) == old(output)@.skip(at + src@.len()),
{
    let ghost out0 = old(output)@;
    let olen = output.len();
    let len = src.len();
    let mut j: usize = 0;
    while j < len
        invariant
            0 <= j <= len,
            len == src@.len(),
            olen == output@.len(),
            at + len <= output@.len(),
            out0 == old(output)@,
            output@.len() == out0.len(),
            output@.subrange(0, at as int) == out0.subrange(0, at as int),
            output@.skip(at + len) == out0.skip(at + len),
            output@.subrange(at as int, at + j) == src@.subrange(0, j as int),
        decreases len - j,
    {
        let ghost pre = output@;
        output[at + j] = src[j];
        proof {
            assert(output@.subrange(0, at as int) =~= pre.subrange(0, at as int));
            assert(output@.skip(at + len) =~= pre.skip(at + len));
            assert(output@.subrange(at as int, at + j + 1) =~= src@.subrange(0, j + 1));
        }
        j += 1;
    }
    proof {
        assert(output@.subrange(at as int, at + len) =~= src@.subrange(0, len as int));
        assert(src@.subrange(0, len as int) =~= src@);
    }
}

/// The parallel encode path: fans the chunks out, then lays the encoded
/// pieces down in order; the result is exactly the serial encoding.
#[verifier::rlimit(100)]
pub(crate) fn encode_parallel(config: &Config, input: &[u8], output: &mut [u8])
    requires
        input@.len() > 0,
        old(output)@.len() >= encoded_len_of(config.padding, input@.len() as int),
    ensures
        final(output)@.len() == old(output)@.len(),
        final(output)@.subrange(0, encoded_len_of(config.padding, input@.len() as int)) == encoding(
            config.url_safe,
            config.padding,
            input@,
        ),
        final(output)@.skip(encoded_len_of(config.padding, input@.len() as int)) == old(
            output,
        )@.skip(encoded_len_of(config.padding, input@.len() as int)),
{
    let u = config.url_safe;
    let p = config.padding;
    let ghost out0 = old(output)@;
    let ghost len = input@.len() as int;
    let ghost c = ENCODE_CHUNK_SIZE as int;
    let ghost elen = encoded_len_of(p, len);
    let parts = par_encode_chunks(config, input);
    let olen = output.len();
    let n = parts.len();
    let mut k: usize = 0;
    let mut pos: usize = 0;
    proof {
        lemma_encoding_len(u, p, input@);
        assert(input@.take(0) =~= Seq::<u8>::empty());
        assert(encoding(u, p, Seq::<u8>::empty()) =~= Seq::<u8>::empty());
        assert(output@.subrange(0, 0) =~= Seq::<u8>::empty());
    }
    while k < n
        invariant
            0 <= k <= n,
            n == n_chunks(len, c),
            c == ENCODE_CHUNK_SIZE as int,
            len == input@.len() as int,
            len > 0,
            elen == encoded_len_of(p, len),
            elen <= output@.len(),
            olen == output@.len(),
            pos <= elen,
            parts@.len() == n,
            forall|j: int|
                0 <= j < n ==> parts@[j]@ == encoding(
                    u,
                    p,
                    input@.subrange(j * c, chunk_end(len, c, j)),
                ),
            k < n ==> k * c < len,
            k == n ==> k * c >= len,
            pos == encoded_len_of(p, if k * c <= len { k * c } else { len }),
            out0 == old(output)@,
            output@.len() == out0.len(),
            output@.skip(elen) == out0.skip(elen),
            output@.subrange(0, pos as int) == encoding(
                u,
                p,
                input@.take(if k * c <= len { k * c } else { len }),
            ),
        decreases n - k,
    {
        proof {
            lemma_chunking(len, c, k as int);
            assert((k as int * c) % 3 == 0 && ((k + 1) as int * c) % 3 == 0) by (nonlinear_arith)
                requires
                    c == 24576,
                    k >= 0,
            ;
        }
        let ghost kc = k as int * c;
        let ghost cend = chunk_end(len, c, k as int);
        let part = &parts[k];
        proof {
            let s = input@;
            let head = s.take(kc);
            let mid = s.subrange(kc, cend);
            lemma_encoding_split(u, p, s.take(cend), kc);
            assert(s.take(cend).take(kc) =~= head);
            assert(s.take(cend).skip(kc) =~= mid);
            lemma_encoding_len(u, p, s.take(cend));
            lemma_encoding_len(u, p, head);
            lemma_encoding_len(u, p, mid);
            assert(encoded_len_of(p, cend) == pos + part@.len());
            if cend < len {
                lemma_encoding_split(u, p, s, cend);
                lemma_encoding_len(u, p, s.skip(cend));
                assert(encoded_len_of(p, len - cend) >= 0);
                assert(elen == encoded_len_of(p, cend) + encoded_len_of(p, len - cend));
            } else {
                assert(cend == len);
            }
            assert(encoded_len_of(p, cend) <= elen);
        }
        let ghost mid_out = output@;
        copy_at(part.as_slice(), output, pos);
        proof {
            assert(output@.subrange(0, pos + part@.len()) =~= output@.subrange(0, pos as int)
                + output@.subrange(pos as int, pos + part@.len()));
            assert(output@.subrange(0, pos as int) =~= mid_out.subrange(0, pos as int));
            assert(output@.subrange(0, pos + part@.len()) =~= encoding(u, p, input@.take(cend)));
            lemma_skip_mono(output@, mid_out, pos + part@.len(), elen);
            assert((k + 1) as int * c <= len ==> cend == (k + 1) as int * c);
            assert((k + 1) as int * c > len ==> cend == len);
        }
        pos = pos + part.len();
        k = k + 1;
    }
    proof {
        assert(k as int * c >= len);
        assert(input@.take(len) =~= input@);
    }
}

/// The parallel decode path: fans the chunks out, then checks and lays the
/// decoded pieces down in order. Every chunk but the last must decode to
/// exactly three bytes per group: a short chunk ended in padding that more
/// input follows, which the serial path rejects as an invalid character,
/// and a failed chunk carries exactly the serial path's error.
#[verifier::rlimit(100)]
pub(crate) fn decode_parallel(config: &Config, input: &[u8], output: &mut [u8]) -> (r: Result<
    usize,
    Error,
>)
    requires
        input@.len() > 0,
        old(output)@.len() >= decoded_len_estimate_of(input@.len() as int),
    ensures
        final(output)@.len() == old(output)@.len(),
        match r {
            Ok(m) => m <= final(output)@.len() && decoding(config.url_safe, config.padding, input@)
                == Ok::<Seq<u8>, Error>(final(output)@.subrange(0, m as int))
                && final(output)@.skip(m as int) == old(output)@.skip(m as int),
            Err(e) => decoding(config.url_safe, config.padding, input@) == Err::<Seq<u8>, Error>(
                e,
            ),
        },
{
    let u = config.url_safe;
    let p = config.padding;
    let ghost out0 = old(output)@;
    let ghost len = input@.len() as int;
    let ghost c = DECODE_CHUNK_SIZE as int;
    let parts = par_decode_chunks(config, input);
    let olen = output.len();
    let n = parts.len();
    let mut k: usize = 0;
    let mut pos: usize = 0;
    proof {
        assert(input@.skip(0) =~= input@);
        assert(output@.subrange(0, 0) =~= Seq::<u8>::empty());
        lemma_prefixed_empty(decoding(u, p, input@));
    }
    while k < n
        invariant
            0 <= k <= n,
            n == n_chunks(len, c),
            c == DECODE_CHUNK_SIZE as int,
            len == input@.len() as int,
            len > 0,
            decoded_len_estimate_of(len) <= output@.len(),
            olen == output@.len(),
            pos <= decoded_len_estimate_of(len),
            parts@.len() == n,
            forall|j: int|
                #![trigger parts@[j]]
                0 <= j < n ==> match parts@[j] {
                    Ok(v) => decoding(u, p, input@.subrange(j * c, chunk_end(len, c, j))) == Ok::<
                        Seq<u8>,
                        Error,
                    >(v@),
                    Err(e) => decoding(u, p, input@.subrange(j * c, chunk_end(len, c, j))) == Err::<
                        Seq<u8>,
                        Error,
                    >(e),
                },
            u == config.url_safe,
            p == config.padding,
            k < n ==> k * c < len && pos == 3 * ((k * c) / 4) && (k * c) % 4 == 0,
            k == n ==> k * c >= len,
            out0 == old(output)@,
            output@.len() == out0.len(),
            output@.skip(pos as int) == out0.skip(pos as int),
            decoding(u, p, input@) == prefixed(
                output@.subrange(0, pos as int),
                decoding(u, p, input@.skip(if k * c <= len { k * c } else { len })),
            ),
        decreases n - k,
    {
        proof {
            lemma_chunking(len, c, k as int);
            assert((k as int * c) % 4 == 0 && ((k + 1) as int * c) % 4 == 0) by (nonlinear_arith)
                requires
                    c == 32768,
                    k >= 0,
            ;
        }
        let ghost kc = k as int * c;
        let ghost cend = chunk_end(len, c, k as int);
        let ghost t = input@.skip(kc);
        let ghost ch = input@.subrange(kc, cend);
        proof {
            assert(t.take(cend - kc) =~= ch);
            assert(t.skip(cend - kc) =~= input@.skip(cend));
        }
        let last = k + 1 == n;
        proof {
            // Brings the per-chunk clause for this k into scope.
            assert(0 <= (k as int) && (k as int) < parts@.len());
            assert(parts@[k as int] == parts@[k as int]);
        }
        match &parts[k] {
            Err(e) => {
                proof {
                    assert(decoding(u, p, ch) == Err::<Seq<u8>, Error>(*e));
                    if !last {
                        lemma_decoding_chunk(u, p, t, cend - kc);
                    } else {
                        assert(ch =~= t);
                    }
                    assert(decoding(u, p, t) == Err::<Seq<u8>, Error>(*e));
                    assert(t == input@.skip(if k * c <= len { k * c } else { len }));
                    assert(decoding(u, p, input@) == prefixed(
                        output@.subrange(0, pos as int),
                        decoding(u, p, t),
                    ));
                    assert(decoding(u, p, input@) == Err::<Seq<u8>, Error>(*e));
                }
                return Err(*e);
            },
            Ok(v) => {
                proof {
                    match decoding(u, p, ch) {
                        Ok(vv) => {
                            lemma_decoded_len_bound(u, p, ch, vv);
                        },
                        Err(_) => {},
                    }
                    assert(v@.len() <= 3 * ((cend - kc) / 4) + 2);
                    assert(pos + v@.len() <= decoded_len_estimate_of(len)) by (nonlinear_arith)
                        requires
                            pos == 3 * (kc / 4),
                            v@.len() <= 3 * ((cend - kc) / 4) + 2,
                            kc % 4 == 0,
                            0 <= kc <= cend <= len,
                            decoded_len_estimate_of(len) == (len / 4 + 1) * 3,
                    ;
                }
                proof {
                    assert(decoding(u, p, ch) == Ok::<Seq<u8>, Error>(v@));
                }
                if !last && v.len() != (DECODE_CHUNK_SIZE / 4) * 3 {
                    proof {
                        assert(cend - kc == c);
                        assert(v@.len() != 3 * ((cend - kc) / 4));
                        lemma_decoding_chunk(u, p, t, cend - kc);
                        assert(decoding(u, p, t) == Err::<Seq<u8>, Error>(Error::InvalidCharacter));
                        assert(t == input@.skip(if k * c <= len { k * c } else { len }));
                        assert(decoding(u, p, input@) == Err::<Seq<u8>, Error>(
                            Error::InvalidCharacter,
                        ));
                    }
                    return Err(Error::InvalidCharacter);
                }
                let ghost mid_out = output@;
                copy_at(v.as_slice(), output, pos);
                proof {
                    if !last {
                        assert(cend - kc == c);
                        assert(v@.len() == 3 * ((cend - kc) / 4));
                        lemma_decoding_chunk(u, p, t, cend - kc);
                        assert(decoding(u, p, t) == prefixed(v@, decoding(u, p, input@.skip(cend))));
                    } else {
                        assert(ch =~= t);
                        assert(decoding(u, p, t) == Ok::<Seq<u8>, Error>(v@));
                        assert(input@.skip(len) =~= Seq::<u8>::empty());
                        assert(decoding(u, p, t) == prefixed(v@, decoding(u, p, input@.skip(cend))));
                    }
                    let w = mid_out.subrange(0, pos as int);
                    assert(output@.subrange(0, pos as int) =~= w);
                    assert(output@.subrange(0, pos + v@.len()) =~= w + v@);
                    match decoding(u, p, input@.skip(cend)) {
                        Ok(rest) => {
                            assert((w + v@) + rest =~= w + (v@ + rest));
                        },
                        Err(_) => {},
                    }
                    assert(output@.skip(pos + v@.len()) == mid_out.skip(pos + v@.len()));
                    lemma_skip_mono(mid_out, out0, pos as int, pos + v@.len());
                    if !last {
                        assert(3 * (cend / 4) == pos + 3 * ((cend - kc) / 4)) by (nonlinear_arith)
                            requires
                                pos == 3 * (kc / 4),
                                kc % 4 == 0,
                                (cend - kc) % 4 == 0,
                                0 <= kc <= cend,
                        ;
                    } else {
                        assert(cend == len);
                    }
                }
                pos = pos + v.len();
                k = k + 1;
                proof {
                    if !last {
                        assert((k as int) * c == cend);
                    } else {
                        assert(k as int * c >= len);
                    }
                }
            },
        }
    }
    proof {
        assert(input@.skip(len) =~= Seq::<u8>::empty());
        assert(decoding(u, p, Seq::<u8>::empty()) == Ok::<Seq<u8>, Error>(Seq::<u8>::empty()));
        let w = output@.subrange(0, pos as int);
        assert(w + Seq::<u8>::empty() =~= w);
    }
    Ok(pos)
}

} // verus!
