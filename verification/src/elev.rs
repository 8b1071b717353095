//! Elevations as order keys.
//!
//! The algorithms of this crate only ever compare, copy and take maxima of
//! elevations. They therefore work on unsigned integer keys whose order is
//! the IEEE-754 total order of the floating-point elevations they stand for.
//! The conversions below take the raw bit pattern of a float (as
//! `f64::to_bits` or `f32::to_bits` give it) and map it to such a key and
//! back. Negative zero is given the key of positive zero, so two elevations
//! that compare equal as floats get equal keys.
use vstd::prelude::*;

verus! {

/// The sign bit of a 64-bit pattern.
pub const SIGN64: u64 = 0x8000_0000_0000_0000;

/// The sign bit of a 32-bit pattern.
pub const SIGN32: u32 = 0x8000_0000;

/// The key of a 64-bit float pattern: negative patterns are inverted,
/// non-negative ones get the sign bit set; negative zero maps to the key of
/// positive zero.
pub open spec fn key64(bits: u64) -> u64 {
    if bits == SIGN64 {
        SIGN64
    } else if bits & SIGN64 != 0 {
        !bits
    } else {
        bits | SIGN64
    }
}

/// IEEE-754 `totalOrder` on 64-bit patterns (strict): a negative pattern
/// comes before every non-negative one, non-negative patterns are ordered by
/// magnitude, negative ones by reverse magnitude.
pub open spec fn total_lt64(a: u64, b: u64) -> bool {
    let sa = a & SIGN64 != 0;
    let sb = b & SIGN64 != 0;
    if sa && !sb {
        true
    } else if !sa && sb {
        false
    } else if !sa {
        a < b
    } else {
        a > b
    }
}

/// The order key of the float with bit pattern `bits`.
pub fn key_from_f64_bits(bits: u64) -> (k: u64)
    ensures
        k == key64(bits),
{
    if bits == SIGN64 {
        SIGN64
    } else if bits & SIGN64 != 0 {
        !bits
    } else {
        bits | SIGN64
    }
}

/// The bit pattern of the float whose order key is `key`.
pub fn f64_bits_from_key(key: u64) -> (bits: u64)
    ensures
        key64(bits) == key || key == !SIGN64,
{
    let r = if key & SIGN64 != 0 {
        key & !SIGN64
    } else {
        !key
    };
    proof {
        assert(key & SIGN64 != 0 ==> key64(key & !SIGN64) == key) by (bit_vector);
        assert(key & SIGN64 == 0 && key != !SIGN64 ==> key64(!key) == key) by (bit_vector);
    }
    r
}

/// Keys preserve and reflect the IEEE total order, except that the two
/// zeros share a key.
pub proof fn lemma_key64_order(a: u64, b: u64)
    requires
        a != SIGN64,
        b != SIGN64,
    ensures
        key64(a) < key64(b) <==> total_lt64(a, b),
        key64(a) == key64(b) <==> a == b,
{
    assert(a != SIGN64 && b != SIGN64 ==> ((if a & SIGN64 != 0 { !a } else { a | SIGN64 }) < (
    if b & SIGN64 != 0 { !b } else { b | SIGN64 }) <==> (if (a & SIGN64 != 0) && !(b & SIGN64
        != 0) { true } else if !(a & SIGN64 != 0) && (b & SIGN64 != 0) { false } else if !(a
        & SIGN64 != 0) { a < b } else { a > b }))) by (bit_vector);
    assert(((if a & SIGN64 != 0 { !a } else { a | SIGN64 }) == (if b & SIGN64 != 0 { !b } else {
        b | SIGN64
    })) <==> a == b) by (bit_vector);
}

/// Decoding a key gives back the pattern it was made from (negative zero
/// comes back as positive zero).
pub proof fn lemma_key64_roundtrip(bits: u64)
    ensures
        key64(bits) != !SIGN64,
        bits != SIGN64 ==> (if key64(bits) & SIGN64 != 0 {
            key64(bits) & !SIGN64
        } else {
            !key64(bits)
        }) == bits,
{
    assert(SIGN64 != !SIGN64) by (bit_vector);
    assert(bits != SIGN64 ==> (if bits & SIGN64 != 0 { !bits } else { bits | SIGN64 }) != !SIGN64)
        by (bit_vector);
    assert(bits != SIGN64 ==> (if (if bits & SIGN64 != 0 { !bits } else { bits | SIGN64 })
        & SIGN64 != 0 {
        (if bits & SIGN64 != 0 { !bits } else { bits | SIGN64 }) & !SIGN64
    } else {
        !(if bits & SIGN64 != 0 { !bits } else { bits | SIGN64 })
    }) == bits) by (bit_vector);
}

/// The key of a 32-bit float pattern (in the same scheme, widened to 64 bits).
pub open spec fn key32(bits: u32) -> u64 {
    if bits == SIGN32 {
        SIGN32 as u64
    } else if bits & SIGN32 != 0 {
        (!bits) as u64
    } else {
        (bits | SIGN32) as u64
    }
}

/// IEEE-754 `totalOrder` on 32-bit patterns (strict).
pub open spec fn total_lt32(a: u32, b: u32) -> bool {
    let sa = a & SIGN32 != 0;
    let sb = b & SIGN32 != 0;
    if sa && !sb {
        true
    } else if !sa && sb {
        false
    } else if !sa {
        a < b
    } else {
        a > b
    }
}

/// 32-bit keys preserve and reflect the IEEE total order, except that the
/// two zeros share a key.
pub proof fn lemma_key32_order(a: u32, b: u32)
    requires
        a != SIGN32,
        b != SIGN32,
    ensures
        key32(a) < key32(b) <==> total_lt32(a, b),
        key32(a) == key32(b) <==> a == b,
{
    assert(a != SIGN32 && b != SIGN32 ==> ((if a & SIGN32 != 0 { !a } else { a | SIGN32 }) < (
    if b & SIGN32 != 0 { !b } else { b | SIGN32 }) <==> (if (a & SIGN32 != 0) && !(b & SIGN32
        != 0) { true } else if !(a & SIGN32 != 0) && (b & SIGN32 != 0) { false } else if !(a
        & SIGN32 != 0) { a < b } else { a > b }))) by (bit_vector);
    assert(((if a & SIGN32 != 0 { !a } else { a | SIGN32 }) == (if b & SIGN32 != 0 { !b } else {
        b | SIGN32
    })) <==> a == b) by (bit_vector);
}

/// The order key of the 32-bit float with bit pattern `bits`.
pub fn key_from_f32_bits(bits: u32) -> (k: u64)
    ensures
        k == key32(bits),
        k < 0x1_0000_0000,
{
    if bits == SIGN32 {
        SIGN32 as u64
    } else if bits & SIGN32 != 0 {
        (!bits) as u64
    } else {
        (bits | SIGN32) as u64
    }
}

/// The bit pattern of the 32-bit float whose order key is `key`.
pub fn f32_bits_from_key(key: u64) -> (bits: u32)
    requires
        key < 0x1_0000_0000,
    ensures
        key32(bits) == key || key == (!SIGN32) as u64,
{
    let k = key as u32;
    let r = if k & SIGN32 != 0 {
        k & !SIGN32
    } else {
        !k
    };
    proof {
        assert(k & SIGN32 != 0 ==> key32(k & !SIGN32) == k as u64) by (bit_vector);
        assert(k & SIGN32 == 0 && k != !SIGN32 ==> key32(!k) == k as u64) by (bit_vector);
    }
    r
}


/// The key of negative infinity among 64-bit keys; keys below it are
/// negative NaNs.
pub const NEG_INF64: u64 = 0x000F_FFFF_FFFF_FFFF;

/// The key of positive infinity among 64-bit keys; keys above it are
/// positive NaNs.
pub const POS_INF64: u64 = 0xFFF0_0000_0000_0000;

/// The key of the negative 64-bit float closest to zero.
pub const NEG_TINY64: u64 = 0x7FFF_FFFF_FFFF_FFFE;

/// The key of the negative 32-bit float closest to zero.
pub const NEG_TINY32: u32 = 0x7FFF_FFFE;

/// The key of negative infinity among 32-bit keys.
pub const NEG_INF32: u32 = 0x007F_FFFF;

/// The key of positive infinity among 32-bit keys.
pub const POS_INF32: u32 = 0xFF80_0000;

/// The key of the least float above the one of `k`: a NaN and positive
/// infinity stay as they are, the negative float closest to zero steps to
/// zero (whose two signs share a key), every other key steps by one.
pub open spec fn next_up64(k: u64) -> u64 {
    if k < NEG_INF64 || k >= POS_INF64 {
        k
    } else if k == NEG_TINY64 {
        SIGN64
    } else {
        (k + 1) as u64
    }
}

/// [`next_up64`] for 32-bit keys.
pub open spec fn next_up32(k: u32) -> u32 {
    if k < NEG_INF32 || k >= POS_INF32 {
        k
    } else if k == NEG_TINY32 {
        SIGN32
    } else {
        (k + 1) as u32
    }
}

/// The next representable elevation above a given one, as the floats'
/// `next_up` gives it: implemented for the keys of 64-bit floats (`u64`)
/// and of 32-bit floats (`u32`).
pub trait NextUp: Sized {
    /// The next elevation up.
    spec fn spec_next_up(&self) -> Self;

    /// The next elevation up.
    fn next_up(&self) -> (r: Self)
        ensures
            r == self.spec_next_up(),
    ;
}

impl NextUp for u64 {
    open spec fn spec_next_up(&self) -> u64 {
        next_up64(*self)
    }

    fn next_up(&self) -> (r: u64) {
        let k = *self;
        if k < NEG_INF64 || k >= POS_INF64 {
            k
        } else if k == NEG_TINY64 {
            SIGN64
        } else {
            k + 1
        }
    }
}

impl NextUp for u32 {
    open spec fn spec_next_up(&self) -> u32 {
        next_up32(*self)
    }

    fn next_up(&self) -> (r: u32) {
        let k = *self;
        if k < NEG_INF32 || k >= POS_INF32 {
            k
        } else if k == NEG_TINY32 {
            SIGN32
        } else {
            k + 1
        }
    }
}

/// Stepping up never lowers an elevation, and raises every finite one.
pub proof fn lemma_next_up64(k: u64)
    ensures
        next_up64(k) >= k,
        NEG_INF64 <= k < POS_INF64 ==> next_up64(k) > k,
{
}

} // verus!
