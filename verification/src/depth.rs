use vstd::prelude::*;

verus! {

/// The depth that stands for "infinitely far": the depth of every pixel after
/// a clear. Every other depth is finite and compares smaller.
pub const DEPTH_INFINITE: u32 = 0xFFFF_FFFF;

/// The magnitude part of an IEEE 754 single-precision bit pattern: exponent
/// and fraction without the sign bit.
pub open spec fn magnitude_of(bits: u32) -> int {
    bits as int % 0x8000_0000
}

/// Whether the sign bit of a single-precision bit pattern is set.
pub open spec fn is_negative(bits: u32) -> bool {
    bits >= 0x8000_0000
}

/// Whether a single-precision bit pattern is not a number.
pub open spec fn is_nan(bits: u32) -> bool {
    magnitude_of(bits) > 0x7F80_0000
}

/// Whether a single-precision bit pattern is positive infinity.
pub open spec fn is_positive_infinity(bits: u32) -> bool {
    bits == 0x7F80_0000
}

/// The place of a single-precision number in the order of all of them: the
/// magnitude with the sign in front. Of two numbers the smaller has the
/// smaller place, and both zeros share place zero.
pub open spec fn ordinal(bits: u32) -> int {
    if is_negative(bits) {
        -magnitude_of(bits)
    } else {
        magnitude_of(bits)
    }
}

/// The depth-buffer key of a single-precision depth, given by its bit
/// pattern: keys compare as the depths do. Positive infinity, and what is
/// not a number, get the infinite depth, which the depth test never
/// accepts.
pub open spec fn depth_key_of(bits: u32) -> u32 {
    if is_nan(bits) || is_positive_infinity(bits) {
        DEPTH_INFINITE
    } else {
        (ordinal(bits) + 0x7F80_0000) as u32
    }
}

/// Turns the bit pattern of a single-precision depth into its depth-buffer
/// key.
pub fn depth_key(bits: u32) -> (key: u32)
    ensures
        key == depth_key_of(bits),
{
    let magnitude: u32 = bits % 0x8000_0000;
    if magnitude > 0x7F80_0000 {
        DEPTH_INFINITE
    } else if bits >= 0x8000_0000 {
        0x7F80_0000 - magnitude
    } else if magnitude == 0x7F80_0000 {
        DEPTH_INFINITE
    } else {
        0x7F80_0000 + magnitude
    }
}

/// Keys keep the order of the depths: a depth that is not larger has a key
/// that is not larger, and a smaller depth has a smaller key unless both
/// keys are infinite.
pub proof fn lemma_depth_key_monotone(near: u32, far: u32)
    requires
        !is_nan(near),
        !is_nan(far),
        ordinal(near) <= ordinal(far),
    ensures
        depth_key_of(near) <= depth_key_of(far),
        ordinal(near) == ordinal(far) ==> depth_key_of(near) == depth_key_of(far),
        ordinal(near) < ordinal(far) ==> depth_key_of(near) < depth_key_of(far),
{
}

/// Only positive infinity and what is not a number have the infinite key:
/// every other depth is accepted by a pixel that was just cleared.
pub proof fn lemma_depth_key_finite(bits: u32)
    ensures
        depth_key_of(bits) == DEPTH_INFINITE <==> is_nan(bits) || is_positive_infinity(bits),
{
}

} // verus!
