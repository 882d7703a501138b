//! Order keys for `f32` bit patterns.
//!
//! Scores and distances are `f32` values computed outside this crate; the
//! indexes see them as keys: `u32` values whose integer order is the order
//! of the floats they stand for, with `-0.0` and `+0.0` sharing one key, as
//! `f32::partial_cmp` considers them equal.  Every NaN, whatever its sign,
//! gets a key above that of every number, so that a search for the smallest
//! key never settles on a NaN while a number is present.
use vstd::prelude::*;

verus! {

/// `bits` is the bit pattern of a NaN: all exponent bits set and a
/// non-zero fraction.
pub open spec fn is_nan_bits(bits: u32) -> bool {
    bits & 0x7FFF_FFFFu32 > 0x7F80_0000u32
}

/// The key of the `f32` whose bit pattern is `bits`: zero of either sign
/// maps to `2^31`, a negative number to the complement of its bits, and a
/// positive number or any NaN to its magnitude bits with the top bit set.
pub open spec fn order_key_of(bits: u32) -> u32 {
    if bits & 0x7FFF_FFFFu32 == 0 {
        0x8000_0000u32
    } else if bits & 0x8000_0000u32 != 0 && bits & 0x7FFF_FFFFu32 <= 0x7F80_0000u32 {
        !bits
    } else {
        (bits & 0x7FFF_FFFFu32) | 0x8000_0000u32
    }
}

/// The bit pattern of the `f32` whose key is `key` (`+0.0` for the key of zero).
pub open spec fn bits_of_key(key: u32) -> u32 {
    if key & 0x8000_0000u32 != 0 {
        key & 0x7FFF_FFFFu32
    } else {
        !key
    }
}

/// Turns the bit pattern of an `f32` into its order key.
pub fn order_key(bits: u32) -> (key: u32)
    ensures
        key == order_key_of(bits),
{
    let magnitude = bits & 0x7FFF_FFFFu32;
    if magnitude == 0 {
        0x8000_0000u32
    } else if bits & 0x8000_0000u32 != 0 && magnitude <= 0x7F80_0000u32 {
        !bits
    } else {
        magnitude | 0x8000_0000u32
    }
}

/// Turns an order key back into the bit pattern of its `f32`.
pub fn key_bits(key: u32) -> (bits: u32)
    ensures
        bits == bits_of_key(key),
{
    if key & 0x8000_0000u32 != 0 {
        key & 0x7FFF_FFFFu32
    } else {
        !key
    }
}

/// Keys give back the float they were made from, with two exceptions:
/// `-0.0` shares the key of `+0.0` and comes back as `+0.0`, and a NaN with
/// the sign bit set comes back without it.
pub proof fn lemma_key_round_trip(bits: u32)
    ensures
        bits != 0x8000_0000u32 && !(is_nan_bits(bits) && bits & 0x8000_0000u32 != 0)
            ==> bits_of_key(order_key_of(bits)) == bits,
        bits == 0x8000_0000u32 ==> bits_of_key(order_key_of(bits)) == 0u32,
        is_nan_bits(bits) ==> bits_of_key(order_key_of(bits)) == bits & 0x7FFF_FFFFu32,
        order_key_of(0x8000_0000u32) == order_key_of(0u32),
{
    assert(bits != 0x8000_0000u32 && !(bits & 0x7FFF_FFFFu32 > 0x7F80_0000u32 && bits & 0x8000_0000u32 != 0)
        ==> bits_of_key(order_key_of(bits)) == bits) by (bit_vector);
    assert(bits == 0x8000_0000u32 ==> bits_of_key(order_key_of(bits)) == 0u32) by (bit_vector);
    assert(bits & 0x7FFF_FFFFu32 > 0x7F80_0000u32 ==> bits_of_key(order_key_of(bits)) == bits & 0x7FFF_FFFFu32)
        by (bit_vector);
    assert(order_key_of(0x8000_0000u32) == order_key_of(0u32)) by (bit_vector);
}

/// Keys follow the IEEE order of the floats: among non-negative floats a
/// larger bit pattern is a larger float, among negative non-zero numbers a
/// larger bit pattern is a smaller float, every negative non-zero number
/// lies below every non-negative float, and every NaN lies above every
/// number.
pub proof fn lemma_key_order(a: u32, b: u32)
    ensures
        a & 0x8000_0000u32 == 0 && b & 0x8000_0000u32 == 0 ==> (a < b <==> order_key_of(a)
            < order_key_of(b)),
        a & 0x8000_0000u32 != 0 && b & 0x8000_0000u32 != 0 && a & 0x7FFF_FFFFu32 != 0 && b
            & 0x7FFF_FFFFu32 != 0 && !is_nan_bits(a) && !is_nan_bits(b) ==> (a < b <==> order_key_of(a)
            > order_key_of(b)),
        a & 0x8000_0000u32 != 0 && a & 0x7FFF_FFFFu32 != 0 && !is_nan_bits(a) && b & 0x8000_0000u32 == 0
            ==> order_key_of(a) < order_key_of(b),
        is_nan_bits(a) && !is_nan_bits(b) ==> order_key_of(b) < order_key_of(a),
{
    assert(a & 0x8000_0000u32 == 0 && b & 0x8000_0000u32 == 0 ==> (a < b <==> order_key_of(a)
        < order_key_of(b))) by (bit_vector);
    assert(a & 0x8000_0000u32 != 0 && b & 0x8000_0000u32 != 0 && a & 0x7FFF_FFFFu32 != 0 && b
        & 0x7FFF_FFFFu32 != 0 && !(a & 0x7FFF_FFFFu32 > 0x7F80_0000u32) && !(b & 0x7FFF_FFFFu32
        > 0x7F80_0000u32) ==> (a < b <==> order_key_of(a) > order_key_of(b))) by (bit_vector);
    assert(a & 0x8000_0000u32 != 0 && a & 0x7FFF_FFFFu32 != 0 && !(a & 0x7FFF_FFFFu32 > 0x7F80_0000u32)
        && b & 0x8000_0000u32 == 0 ==> order_key_of(a) < order_key_of(b)) by (bit_vector);
    assert(a & 0x7FFF_FFFFu32 > 0x7F80_0000u32 && !(b & 0x7FFF_FFFFu32 > 0x7F80_0000u32)
        ==> order_key_of(b) < order_key_of(a)) by (bit_vector);
}

} // verus!
