//! A tiered Base64 codec: RFC 4648 standard and URL-safe alphabets, with and
//! without padding, implemented as a scalar kernel plus three wider
//! block-oriented kernels behind a size dispatcher, and an optional
//! data-parallel chunker for large payloads.

pub mod model;
pub mod tables;
pub mod scalar;
pub mod ssse3;
pub mod avx2;
pub mod avx512;
pub mod chunker;

use vstd::prelude::*;

verus! {

/// Errors that can occur during Base64 encoding or decoding operations.
#[derive(Debug, Clone, Copy, PartialEq, Eq, Structural)]
pub enum Error {
    /// The input length is incompatible with the padding policy.
    InvalidLength,
    /// A byte outside the active alphabet (or a misplaced padding
    /// character) was encountered during decoding.
    InvalidCharacter,
    /// The caller-supplied output buffer is shorter than required.
    BufferTooSmall,
}

impl Error {
    /// The human-readable description of this error.
    pub fn message(&self) -> (r: &'static str)
        ensures
            r@ == match self {
                Error::InvalidLength => "Invalid Base64 input length (must be divisible by 4)"@,
                Error::InvalidCharacter => "Invalid character found in Base64 input"@,
                Error::BufferTooSmall => "Destination buffer is too small"@,
            },
    {
        match self {
            Error::InvalidLength => "Invalid Base64 input length (must be divisible by 4)",
            Error::InvalidCharacter => "Invalid character found in Base64 input",
            Error::BufferTooSmall => "Destination buffer is too small",
        }
    }
}

/// Configuration of the codec: which alphabet is used and whether the
/// trailing `=` padding is written and required.
#[derive(Debug, Clone, Copy, PartialEq, Eq, Structural)]
pub struct Config {
    /// If true, uses `-` and `_` instead of `+` and `/`.
    pub url_safe: bool,
    /// If true, writes `=` padding characters to the output.
    pub padding: bool,
}

/// A stateless Base64 encoder/decoder wrapping a [`Config`].
#[derive(Debug, Clone, Copy, PartialEq, Eq, Structural)]
pub struct Engine {
    /// The alphabet and padding policy this engine applies.
    pub config: Config,
}

/// Standard alphabet (`+`, `/`) with `=` padding.
pub fn standard() -> (e: Engine)
    ensures
        e.config == (Config { url_safe: false, padding: true }),
{
    Engine { config: Config { url_safe: false, padding: true } }
}

/// Standard alphabet (`+`, `/`) without padding.
pub fn standard_no_pad() -> (e: Engine)
    ensures
        e.config == (Config { url_safe: false, padding: false }),
{
    Engine { config: Config { url_safe: false, padding: false } }
}

/// URL-safe alphabet (`-`, `_`) with `=` padding.
pub fn url_safe() -> (e: Engine)
    ensures
        e.config == (Config { url_safe: true, padding: true }),
{
    Engine { config: Config { url_safe: true, padding: true } }
}

/// URL-safe alphabet (`-`, `_`) without padding.
pub fn url_safe_no_pad() -> (e: Engine)
    ensures
        e.config == (Config { url_safe: true, padding: false }),
{
    Engine { config: Config { url_safe: true, padding: false } }
}

/// The exact encoded size of `len` input bytes under either padding policy.
pub fn encoded_size(len: usize, padding: bool) -> (r: usize)
    requires
        model::encoded_len_of(padding, len as int) <= usize::MAX,
    ensures
        r == model::encoded_len_of(padding, len as int),
{
    if padding {
        standard().encoded_len(len)
    } else {
        standard_no_pad().encoded_len(len)
    }
}

/// Relies on String::from_utf8: a vector of ASCII bytes is valid UTF-8 and
/// becomes the string holding exactly those bytes, one character per byte.
#[verifier::external_body]
fn ascii_to_string(v: Vec<u8>) -> (r: String)
    requires
        forall|i: int| 0 <= i < v@.len() ==> v@[i] < 128,
    ensures
        r@ == v@.map_values(|b: u8| b as char),
{
    String::from_utf8(v).unwrap()
}

impl Engine {
    /// The exact output size of encoding `input_len` bytes under this
    /// engine's padding policy: `ceil(n/3)*4` padded, `ceil(n*4/3)` not.
    pub fn encoded_len(&self, input_len: usize) -> (r: usize)
        requires
            model::encoded_len_of(self.config.padding, input_len as int) <= usize::MAX,
        ensures
            r == model::encoded_len_of(self.config.padding, input_len as int),
    {
        let full = input_len / 3;
        let t = input_len % 3;
        if self.config.padding {
            let groups = if t != 0 {
                full + 1
            } else {
                full
            };
            proof {
                assert(groups == (input_len as int + 2) / 3 && groups * 4 == model::encoded_len_of(
                    true,
                    input_len as int,
                )) by (nonlinear_arith)
                    requires
                        full == input_len as int / 3,
                        t == input_len as int % 3,
                        groups == if t != 0 {
                            full as int + 1
                        } else {
                            full as int
                        },
                        input_len >= 0,
                ;
            }
            groups * 4
        } else {
            let tail: usize = if t == 0 {
                0
            } else {
                t + 1
            };
            proof {
                assert(full * 4 + tail == model::encoded_len_of(false, input_len as int))
                    by (nonlinear_arith)
                    requires
                        full == input_len as int / 3,
                        t == input_len as int % 3,
                        tail == if t == 0 {
                            0int
                        } else {
                            t as int + 1
                        },
                        input_len >= 0,
                ;
            }
            full * 4 + tail
        }
    }

    /// An upper bound on the output size of decoding `input_len` bytes;
    /// the true size is returned by the decode itself.
    pub fn estimate_decoded_len(&self, input_len: usize) -> (r: usize)
        requires
            model::decoded_len_estimate_of(input_len as int) <= usize::MAX,
        ensures
            r == model::decoded_len_estimate_of(input_len as int),
    {
        (input_len / 4 + 1) * 3
    }

    /// Picks the widest kernel whose minimum block size the input reaches,
    /// stepping down one tier at a time to the always-applicable scalar
    /// kernel; every kernel here is portable and produces byte-identical
    /// output, so no capability check is needed.
    fn encode_dispatch(&self, input: &[u8], output: &mut [u8])
        requires
            old(output)@.len() >= model::encoded_len_of(self.config.padding, input@.len() as int),
        ensures
            final(output)@.len() == old(output)@.len(),
            final(output)@.subrange(
                0,
                model::encoded_len_of(self.config.padding, input@.len() as int),
            ) == model::encoding(self.config.url_safe, self.config.padding, input@),
            final(output)@.skip(
                model::encoded_len_of(self.config.padding, input@.len() as int),
            ) == old(output)@.skip(
                model::encoded_len_of(self.config.padding, input@.len() as int),
            ),
    {
        let len = input.len();
        if len >= 64 {
            avx512::encode_slice_avx512(&self.config, input, output);
        } else if len >= 32 {
            avx2::encode_slice_avx2(&self.config, input, output);
        } else if len >= 16 {
            ssse3::encode_slice_simd(&self.config, input, output);
        } else {
            scalar::encode_slice_unsafe(&self.config, input, output);
        }
    }

    /// Picks the widest kernel whose minimum block size the input reaches,
    /// stepping down one tier at a time to the always-applicable scalar
    /// kernel; every kernel here is portable and produces byte-identical
    /// output, so no capability check is needed.
    fn decode_dispatch(&self, input: &[u8], output: &mut [u8]) -> (r: Result<usize, Error>)
        requires
            old(output)@.len() >= model::decoded_len_estimate_of(input@.len() as int),
        ensures
            final(output)@.len() == old(output)@.len(),
            match r {
                Ok(m) => m <= final(output)@.len() && model::decoding(
                    self.config.url_safe,
                    self.config.padding,
                    input@,
                ) == Ok::<Seq<u8>, Error>(final(output)@.subrange(0, m as int))
                    && final(output)@.skip(m as int) == old(output)@.skip(m as int),
                Err(e) => model::decoding(self.config.url_safe, self.config.padding, input@)
                    == Err::<Seq<u8>, Error>(e),
            },
    {
        let len = input.len();
        if len >= 64 {
            avx512::decode_slice_avx512(&self.config, input, output)
        } else if len >= 32 {
            avx2::decode_slice_avx2(&self.config, input, output)
        } else if len >= 16 {
            ssse3::decode_slice_simd(&self.config, input, output)
        } else {
            scalar::decode_slice_unsafe(&self.config, input, output)
        }
    }

    /// Encodes `input` into the caller's buffer and returns the number of
    /// bytes written, which is exactly `encoded_len` of the input length;
    /// fails with `BufferTooSmall`, writing nothing, exactly when the
    /// buffer is shorter than that.
    pub fn encode_into(&self, input: &[u8], output: &mut [u8]) -> (r: Result<usize, Error>)
        ensures
            final(output)@.len() == old(output)@.len(),
            match r {
                Ok(m) => m == model::encoded_len_of(self.config.padding, input@.len() as int)
                    && final(output)@.subrange(0, m as int) == model::encoding(
                    self.config.url_safe,
                    self.config.padding,
                    input@,
                ) && final(output)@.skip(m as int) == old(output)@.skip(m as int)
                    && old(output)@.len() >= m,
                Err(e) => e == Error::BufferTooSmall && old(output)@.len()
                    < model::encoded_len_of(self.config.padding, input@.len() as int)
                    && final(output)@ == old(output)@,
            },
    {
        let len = input.len();
        let ghost elen = model::encoded_len_of(self.config.padding, input@.len() as int);
        if len == 0 {
            proof {
                assert(model::encoding(self.config.url_safe, self.config.padding, input@)
                    =~= Seq::<u8>::empty());
                assert(final(output)@.subrange(0, 0) =~= Seq::<u8>::empty());
                assert(final(output)@.skip(0) =~= final(output)@);
            }
            return Ok(0);
        }
        let full = len / 3;
        let t = len % 3;
        let out_len = output.len();
        let req: usize;
        if self.config.padding {
            let groups = if t != 0 {
                full + 1
            } else {
                full
            };
            proof {
                assert(groups == (len as int + 2) / 3 && groups * 4 == elen && (out_len as int / 4
                    < groups <==> out_len < elen)) by (nonlinear_arith)
                    requires
                        elen == ((len as int + 2) / 3) * 4,
                        full == len as int / 3,
                        t == len as int % 3,
                        groups == if t != 0 {
                            full as int + 1
                        } else {
                            full as int
                        },
                        len >= 0,
                        out_len >= 0,
                ;
            }
            if out_len / 4 < groups {
                return Err(Error::BufferTooSmall);
            }
            req = groups * 4;
        } else {
            let tail: usize = if t == 0 {
                0
            } else {
                t + 1
            };
            proof {
                assert(full * 4 + tail == elen && ((out_len < tail || (out_len - tail) as int / 4
                    < full) <==> out_len < elen)) by (nonlinear_arith)
                    requires
                        elen == (len as int * 4 + 2) / 3,
                        full == len as int / 3,
                        t == len as int % 3,
                        tail == if t == 0 {
                            0int
                        } else {
                            t as int + 1
                        },
                        len >= 0,
                        out_len >= 0,
                ;
            }
            if out_len < tail || (out_len - tail) / 4 < full {
                return Err(Error::BufferTooSmall);
            }
            req = full * 4 + tail;
        }
        if len >= chunker::PARALLEL_THRESHOLD {
            chunker::encode_parallel(&self.config, input, output);
            return Ok(req);
        }
        self.encode_dispatch(input, output);
        Ok(req)
    }

    /// Decodes `input` into the caller's buffer, which must be at least
    /// `estimate_decoded_len` long, and returns the true number of bytes
    /// written; rejects malformed input with `InvalidLength` or
    /// `InvalidCharacter` exactly as the decoding model prescribes.
    pub fn decode_into(&self, input: &[u8], output: &mut [u8]) -> (r: Result<usize, Error>)
        ensures
            final(output)@.len() == old(output)@.len(),
            match r {
                Ok(m) => m <= final(output)@.len() && model::decoding(
                    self.config.url_safe,
                    self.config.padding,
                    input@,
                ) == Ok::<Seq<u8>, Error>(final(output)@.subrange(0, m as int))
                    && final(output)@.skip(m as int) == old(output)@.skip(m as int) && (
                input@.len() == 0 || old(output)@.len() >= model::decoded_len_estimate_of(
                    input@.len() as int,
                )),
                Err(e) => (e == Error::BufferTooSmall ==> input@.len() > 0 && old(output)@.len()
                    < model::decoded_len_estimate_of(input@.len() as int)
                    && final(output)@ == old(output)@) && (e != Error::BufferTooSmall
                    ==> model::decoding(
                    self.config.url_safe,
                    self.config.padding,
                    input@,
                ) == Err::<Seq<u8>, Error>(e)),
            },
    {
        let len = input.len();
        if len == 0 {
            proof {
                assert(final(output)@.subrange(0, 0) =~= Seq::<u8>::empty());
                assert(final(output)@.skip(0) =~= final(output)@);
            }
            return Ok(0);
        }
        let est_groups = len / 4 + 1;
        let out_len = output.len();
        proof {
            assert(out_len as int / 3 < est_groups <==> out_len < est_groups * 3)
                by (nonlinear_arith)
                requires
                    out_len >= 0,
                    est_groups >= 1,
            ;
        }
        if out_len / 3 < est_groups {
            return Err(Error::BufferTooSmall);
        }
        proof {
            assert(est_groups * 3 == model::decoded_len_estimate_of(input@.len() as int));
            assert(out_len >= model::decoded_len_estimate_of(input@.len() as int));
            model::lemma_decoding_no_buffer_error(self.config.url_safe, self.config.padding, input@);
        }
        if len >= chunker::PARALLEL_THRESHOLD {
            return chunker::decode_parallel(&self.config, input, output);
        }
        self.decode_dispatch(input, output)
    }

    /// Encodes `input` into a freshly allocated string of exactly the
    /// required length.
    pub fn encode(&self, input: &[u8]) -> (r: String)
        requires
            model::encoded_len_of(self.config.padding, input@.len() as int) <= usize::MAX,
        ensures
            r@ == model::encoding(self.config.url_safe, self.config.padding, input@).map_values(
                |b: u8| b as char,
            ),
    {
        let len = self.encoded_len(input.len());
        let mut out: Vec<u8> = vec![0u8; len];
        let res = self.encode_into(input, out.as_mut_slice());
        match res {
            Ok(_) => {},
            Err(_) => {
                proof {
                    assert(false);
                }
            },
        }
        proof {
            model::lemma_encoding_ascii(self.config.url_safe, self.config.padding, input@);
            assert(out@ =~= model::encoding(self.config.url_safe, self.config.padding, input@));
        }
        ascii_to_string(out)
    }

    /// Decodes `input` into a freshly allocated vector trimmed to the true
    /// decoded length; on failure nothing of the partial work is exposed.
    pub fn decode(&self, input: &[u8]) -> (r: Result<Vec<u8>, Error>)
        requires
            model::decoded_len_estimate_of(input@.len() as int) <= usize::MAX,
        ensures
            match r {
                Ok(v) => model::decoding(self.config.url_safe, self.config.padding, input@) == Ok::<
                    Seq<u8>,
                    Error,
                >(v@),
                Err(e) => model::decoding(self.config.url_safe, self.config.padding, input@)
                    == Err::<Seq<u8>, Error>(e),
            },
    {
        let est = self.estimate_decoded_len(input.len());
        let mut out: Vec<u8> = vec![0u8; est];
        let res = self.decode_into(input, out.as_mut_slice());
        match res {
            Ok(m) => {
                out.truncate(m);
                Ok(out)
            },
            Err(e) => {
                proof {
                    assert(e != Error::BufferTooSmall);
                }
                Err(e)
            },
        }
    }
}

} // verus!
