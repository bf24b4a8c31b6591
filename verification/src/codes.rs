//! The two-bit encoding of terminal width codes.
//!
//! A width code is one of -1 (non-printable), 0 (zero width), 1 (narrow)
//! and 2 (wide). Internally the tables store a two-bit encoded form chosen
//! so that the all-zero (unset) state decodes to the default width 1.

use vstd::prelude::*;

verus! {

/// The encoded form of a width code: 1 -> 0, 2 -> 1, 0 -> 2, -1 -> 3.
pub open spec fn encode_code(w: i8) -> u64 {
    if w == 1 {
        0
    } else if w == 2 {
        1
    } else if w == 0 {
        2
    } else {
        3
    }
}

/// The width code denoted by an encoded value: 0 -> 1, 1 -> 2, 2 -> 0, 3 -> -1.
pub open spec fn decode_code(v: u64) -> i8 {
    if v == 0 {
        1i8
    } else if v == 1 {
        2i8
    } else if v == 2 {
        0i8
    } else {
        -1i8
    }
}

/// Encodes a width code into its two-bit form.
pub fn encode(v: i8) -> (r: u64)
    requires
        -1 <= v <= 2,
    ensures
        r == encode_code(v),
        r < 4,
{
    if v == 1 {
        0
    } else if v == 2 {
        1
    } else if v == 0 {
        2
    } else {
        3
    }
}

/// Decodes a two-bit encoded value back into a width code.
pub fn decode(v: u64) -> (r: i8)
    requires
        v < 4,
    ensures
        r == decode_code(v),
        -1 <= r <= 2,
{
    if v == 0 {
        1
    } else if v == 1 {
        2
    } else if v == 2 {
        0
    } else {
        -1
    }
}

/// The encoding of width codes is a bijection on {-1, 0, 1, 2}:
/// decoding an encoded width code gives the code back, and encoding a
/// decoded two-bit value gives the value back.
pub proof fn lemma_code_roundtrip(w: i8, v: u64)
    ensures
        -1 <= w <= 2 ==> decode_code(encode_code(w)) == w && encode_code(w) < 4,
        v < 4 ==> encode_code(decode_code(v)) == v && -1 <= decode_code(v) <= 2,
{
}

} // verus!
