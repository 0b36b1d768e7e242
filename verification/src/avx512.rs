//! The 512-bit tier: processes the input in 48-byte encode blocks and
//! 64-byte decode blocks, four blocks per pass while they last, and hands
//! any remainder shorter than one block to the scalar kernel. It keeps a
//! four-byte margin so that legal trailing padding never falls inside a
//! block; a padding byte inside a block is rejected with the rest of the
//! block, whole-block validation being all-or-nothing.

use vstd::prelude::*;
use crate::Config;
use crate::Error;
use crate::model::{encoding, encoded_len_of, decoding, decoded_len_estimate_of, lemma_align};
use crate::scalar::{encode_regions, decode_regions};

verus! {

/// The 512-bit-tier encode kernel: byte-identical with the scalar kernel.
pub fn encode_slice_avx512(config: &Config, input: &[u8], output: &mut [u8])
    requires
        old(output)@.len() >= encoded_len_of(config.padding, input@.len() as int),
    ensures
        final(output)@.len() == old(output)@.len(),
        final(output)@.subrange(0, encoded_len_of(config.padding, input@.len() as int)) == encoding(
            config.url_safe,
            config.padding,
            input@,
        ),
        final(output)@.skip(encoded_len_of(config.padding, input@.len() as int)) == old(
            output,
        )@.skip(encoded_len_of(config.padding, input@.len() as int)),
{
    let len = input.len();
    let safe = if len >= 4 {
        len - 4
    } else {
        0
    };
    // 192-byte quad blocks while they last, then 48-byte single blocks.
    let quad = safe - safe % 192;
    let rest = safe - quad;
    let single = quad + (rest - rest % 48);
    proof {
        lemma_align(safe as int, 192, 3);
        lemma_align(rest as int, 48, 3);
    }
    encode_regions(config.url_safe, config.padding, input, quad, single, output);
}

/// The 512-bit-tier decode kernel: byte-identical with the scalar kernel.
pub fn decode_slice_avx512(config: &Config, input: &[u8], output: &mut [u8]) -> (r: Result<
    usize,
    Error,
>)
    requires
        old(output)@.len() >= decoded_len_estimate_of(input@.len() as int),
    ensures
        final(output)@.len() == old(output)@.len(),
        match r {
            Ok(m) => m <= final(output)@.len() && decoding(config.url_safe, config.padding, input@)
                == Ok::<Seq<u8>, Error>(final(output)@.subrange(0, m as int))
                && final(output)@.skip(m as int) == old(output)@.skip(m as int),
            Err(e) => decoding(config.url_safe, config.padding, input@) == Err::<Seq<u8>, Error>(
                e,
            ),
        },
{
    let len = input.len();
    let safe = if len >= 4 {
        len - 4
    } else {
        0
    };
    // 256-byte quad blocks while they last, then 64-byte single blocks.
    let quad = safe - safe % 256;
    let rest = safe - quad;
    let single = quad + (rest - rest % 64);
    proof {
        lemma_align(safe as int, 256, 4);
        lemma_align(rest as int, 64, 4);
    }
    decode_regions(config.url_safe, config.padding, input, quad, single, output)
}

} // verus!
