//! Depths are stored as integer keys that order exactly as the
//! single-precision numbers they stand for: a larger key is a larger number,
//! the two zeros share the key 0, and a NaN has no key.

use vstd::prelude::*;

verus! {

/// The key of negative infinity: no key of a number lies below it.
pub const DEPTH_NEG_INFINITY: i32 = -0x7f80_0000;

/// The key of positive infinity: no key of a number lies above it.
pub const DEPTH_INFINITY: i32 = 0x7f80_0000;

/// The exponent and fraction of an IEEE-754 single-precision bit pattern,
/// read as an unsigned number: the pattern without its sign bit.
pub open spec fn magnitude(bits: u32) -> int {
    bits as int % 0x8000_0000
}

/// Whether the sign bit of the pattern is set.
pub open spec fn is_negative(bits: u32) -> bool {
    bits >= 0x8000_0000
}

/// Whether the pattern encodes a NaN: an all-ones exponent with a non-zero
/// fraction.
pub open spec fn is_nan(bits: u32) -> bool {
    magnitude(bits) > 0x7f80_0000
}

/// The sign-magnitude reading of the pattern. On the patterns that are not
/// NaN it is strictly monotone in the encoded number, except that both zeros
/// map to 0.
pub open spec fn key_of(bits: u32) -> int {
    if is_negative(bits) {
        -magnitude(bits)
    } else {
        magnitude(bits)
    }
}

/// The depth key of the number with the given IEEE-754 single-precision bit
/// pattern, or `None` for a NaN, which orders against nothing.
pub fn depth_key(bits: u32) -> (key: Option<i32>)
    ensures
        is_nan(bits) <==> key is None,
        key matches Some(k) ==> k as int == key_of(bits) && DEPTH_NEG_INFINITY <= k <= DEPTH_INFINITY,
{
    let mag: u32 = bits % 0x8000_0000;
    if mag > 0x7f80_0000 {
        None
    } else if bits >= 0x8000_0000 {
        Some(-(mag as i32))
    } else {
        Some(mag as i32)
    }
}

/// Whether a triangle is discarded before it is rasterized, given the
/// depth keys of the view-space depths of its three vertices. The camera
/// looks towards negative depths, so a vertex with a depth of zero or more
/// lies on or behind the camera plane, and one such vertex discards the
/// whole triangle.
pub fn near_plane_rejects(w0: i32, w1: i32, w2: i32) -> (rejected: bool)
    ensures
        rejected == (w0 >= 0 || w1 >= 0 || w2 >= 0),
{
    w0 >= 0 || w1 >= 0 || w2 >= 0
}

/// Two patterns that are not NaN have the same key exactly when they are the
/// same pattern or are the two zeros.
pub proof fn lemma_key_injective(a: u32, b: u32)
    requires
        !is_nan(a),
        !is_nan(b),
    ensures
        key_of(a) == key_of(b) <==> (a == b || (magnitude(a) == 0 && magnitude(b) == 0)),
{
}

} // verus!
