//! Floats as bit patterns.
//!
//! The library holds a float as the integer that `to_bits` gives and never
//! computes with it. What it needs to know of one can be read off the bits:
//! whether it is a NaN, whether it is a zero, what it is equal to, and where it
//! stands in the total order of IEEE 754 (the order of `f64::total_cmp` and
//! `f32::total_cmp`).

use vstd::prelude::*;

verus! {

/// The sign bit of a 64-bit float: the pattern of negative zero.
pub const SIGN64: u64 = 0x8000_0000_0000_0000;

/// The pattern of positive infinity among 64-bit floats.
pub const INFINITY64: u64 = 0x7ff0_0000_0000_0000;

/// The sign bit of a 32-bit float: the pattern of negative zero.
pub const SIGN32: u32 = 0x8000_0000;

/// The pattern of positive infinity among 32-bit floats.
pub const INFINITY32: u32 = 0x7f80_0000;

/// The pattern without its sign bit.
pub open spec fn magnitude64(bits: u64) -> int {
    if bits < SIGN64 {
        bits as int
    } else {
        bits - SIGN64
    }
}

/// A NaN is any pattern whose magnitude lies above infinity.
pub open spec fn nan64(bits: u64) -> bool {
    magnitude64(bits) > INFINITY64
}

/// The place of a pattern in the total order: patterns without the sign bit
/// count up from 0, those with it count down from -1.
pub open spec fn rank64(bits: u64) -> int {
    if bits < SIGN64 {
        bits as int
    } else {
        SIGN64 - bits - 1
    }
}

/// The one key of a value: negative zero is the same key as positive zero,
/// every other pattern is its own.
pub open spec fn key64(bits: u64) -> u64 {
    if bits == SIGN64 {
        0
    } else {
        bits
    }
}

/// The 32-bit pattern without its sign bit.
pub open spec fn magnitude32(bits: u32) -> int {
    if bits < SIGN32 {
        bits as int
    } else {
        bits - SIGN32
    }
}

/// A 32-bit NaN is any pattern whose magnitude lies above infinity.
pub open spec fn nan32(bits: u32) -> bool {
    magnitude32(bits) > INFINITY32
}

/// The place of a 32-bit pattern in the total order.
pub open spec fn rank32(bits: u32) -> int {
    if bits < SIGN32 {
        bits as int
    } else {
        SIGN32 - bits - 1
    }
}

/// The one key of a 32-bit value: the two zeroes share theirs.
pub open spec fn key32(bits: u32) -> u32 {
    if bits == SIGN32 {
        0
    } else {
        bits
    }
}

/// Equality of floats: a NaN equals nothing, not even itself, the two zeroes are
/// equal, and every other value equals itself alone.
pub open spec fn equal64(a: u64, b: u64) -> bool {
    !nan64(a) && !nan64(b) && key64(a) == key64(b)
}

/// Equality of 32-bit floats.
pub open spec fn equal32(a: u32, b: u32) -> bool {
    !nan32(a) && !nan32(b) && key32(a) == key32(b)
}

/// Equality of vectors: equally long, and equal number by number.
pub open spec fn equal_vectors(a: Seq<u32>, b: Seq<u32>) -> bool {
    &&& a.len() == b.len()
    &&& forall|i: int| 0 <= i < a.len() ==> equal32(#[trigger] a[i], b[i])
}

/// Whether two floats are equal.
pub fn is_equal64(a: u64, b: u64) -> (r: bool)
    ensures
        r == equal64(a, b),
{
    !is_nan64(a) && !is_nan64(b) && to_key64(a) == to_key64(b)
}

/// Whether two 32-bit floats are equal.
pub fn is_equal32(a: u32, b: u32) -> (r: bool)
    ensures
        r == equal32(a, b),
{
    if is_nan32(a) || is_nan32(b) {
        false
    } else {
        a == b || (a == 0 && b == SIGN32) || (a == SIGN32 && b == 0)
    }
}

/// Whether two vectors are equal.
pub fn are_equal_vectors(a: &Vec<u32>, b: &Vec<u32>) -> (r: bool)
    ensures
        r == equal_vectors(a@, b@),
{
    if a.len() != b.len() {
        return false;
    }
    let mut i: usize = 0;
    while i < a.len()
        invariant
            i <= a@.len(),
            a@.len() == b@.len(),
            forall|k: int| 0 <= k < i ==> equal32(#[trigger] a@[k], b@[k]),
        decreases a@.len() - i,
    {
        if !is_equal32(a[i], b[i]) {
            assert(!equal32(a@[i as int], b@[i as int]));
            return false;
        }
        i += 1;
    }
    true
}

/// Whether the pattern is a NaN.
pub fn is_nan64(bits: u64) -> (r: bool)
    ensures
        r == nan64(bits),
{
    if bits < SIGN64 {
        bits > INFINITY64
    } else {
        bits - SIGN64 > INFINITY64
    }
}

/// The key of the pattern: the two zeroes fold onto one.
pub fn to_key64(bits: u64) -> (r: u64)
    ensures
        r == key64(bits),
{
    if bits == SIGN64 {
        0
    } else {
        bits
    }
}

/// Whether the 32-bit pattern is a NaN.
pub fn is_nan32(bits: u32) -> (r: bool)
    ensures
        r == nan32(bits),
{
    if bits < SIGN32 {
        bits > INFINITY32
    } else {
        bits - SIGN32 > INFINITY32
    }
}

/// Whether `a` stands strictly before `b` in the total order of 32-bit floats.
pub fn precedes32(a: u32, b: u32) -> (r: bool)
    ensures
        r == (rank32(a) < rank32(b)),
{
    if a < SIGN32 {
        b < SIGN32 && a < b
    } else {
        b < SIGN32 || b < a
    }
}

/// The total order tells any two different patterns apart.
pub proof fn law_rank64_injective(a: u64, b: u64)
    ensures
        rank64(a) == rank64(b) ==> a == b,
{
}

/// The total order tells any two different 32-bit patterns apart.
pub proof fn law_rank32_injective(a: u32, b: u32)
    ensures
        rank32(a) == rank32(b) ==> a == b,
{
}

/// Divisible by two, `k` times over.
pub open spec fn halves(n: int, k: nat) -> bool
    decreases k,
{
    k == 0 || n % 2 == 0 && halves(n / 2, (k - 1) as nat)
}

/// The exponent field of a 64-bit float.
pub open spec fn exponent64(bits: u64) -> int {
    magnitude64(bits) / 0x10_0000_0000_0000
}

/// The significand of a 64-bit float as an integer; the value is this times two to
/// the power of the exponent, which is at least 1, minus 1075.
pub open spec fn significand64(bits: u64) -> int {
    let fraction = magnitude64(bits) % 0x10_0000_0000_0000;
    if exponent64(bits) == 0 {
        fraction
    } else {
        fraction + 0x10_0000_0000_0000
    }
}

/// A finite float without a fractional part.
pub open spec fn whole64(bits: u64) -> bool {
    let exponent = if exponent64(bits) == 0 {
        1
    } else {
        exponent64(bits)
    };
    &&& magnitude64(bits) < INFINITY64
    &&& exponent >= 1075 || halves(significand64(bits), (1075 - exponent) as nat)
}

/// Whether the pattern is that of a finite float without a fractional part.
pub fn is_whole64(bits: u64) -> (r: bool)
    ensures
        r == whole64(bits),
{
    let magnitude: u64 = if bits < SIGN64 {
        bits
    } else {
        bits - SIGN64
    };
    if magnitude >= INFINITY64 {
        return false;
    }
    let field: u64 = magnitude / 0x10_0000_0000_0000;
    let fraction: u64 = magnitude % 0x10_0000_0000_0000;
    let (exponent, significand): (u64, u64) = if field == 0 {
        (1, fraction)
    } else {
        (field, fraction + 0x10_0000_0000_0000)
    };
    if exponent >= 1075 {
        return true;
    }
    let mut rest: u64 = significand;
    let mut left: u64 = 1075 - exponent;
    while left > 0
        invariant
            whole64(bits) == halves(rest as int, left as nat),
        decreases left,
    {
        if rest % 2 != 0 {
            return false;
        }
        rest = rest / 2;
        left -= 1;
    }
    true
}

} // verus!
