//! Executable forms of the alphabet and of its inverse lookup. Both are
//! branch-light range classifications, proved equal to the model's
//! `b64_char_of` and `b64_index_of`.

use vstd::prelude::*;
use crate::model::{b64_char_of, b64_index_of};

verus! {

/// The alphabet byte for a 6-bit value.
pub fn b64_char(url_safe: bool, v: u8) -> (r: u8)
    requires
        v < 64,
    ensures
        r == b64_char_of(url_safe, v as int),
{
    if v < 26 {
        65 + v
    } else if v < 52 {
        71 + v
    } else if v < 62 {
        v - 4
    } else if v == 62 {
        if url_safe {
            45
        } else {
            43
        }
    } else {
        if url_safe {
            95
        } else {
            47
        }
    }
}

/// The 6-bit value of an input byte, or the invalid sentinel 255. Valid
/// entries have their top two bits clear, so validity of a whole group can
/// be tested on an OR-accumulation of lookups.
pub fn b64_index(url_safe: bool, b: u8) -> (r: u8)
    ensures
        r == b64_index_of(url_safe, b),
{
    if 65 <= b && b <= 90 {
        b - 65
    } else if 97 <= b && b <= 122 {
        b - 71
    } else if 48 <= b && b <= 57 {
        b + 4
    } else if b == (if url_safe { 45 } else { 43 }) {
        62
    } else if b == (if url_safe { 95 } else { 47 }) {
        63
    } else {
        255
    }
}

} // verus!
