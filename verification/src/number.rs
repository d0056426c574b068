//! The numbers that bit patterns of floats stand for.
//!
//! A float has a sign bit, an exponent field and a fraction field. Its number is
//! taken in units of the smallest positive one, so that it is an integer: the
//! significand, doubled once for every step of the exponent above the lowest. The
//! lowest exponent serves the subnormal numbers too, which lack the leading one.
//! Infinity stands behind every finite number.

use vstd::arithmetic::power2::pow2;
use vstd::prelude::*;

use crate::float;

verus! {

/// The exponent field of a 32-bit float.
pub open spec fn exponent_field32(bits: u32) -> int {
    bits as int / 0x80_0000 % 256
}

/// The fraction field of a 32-bit float.
pub open spec fn fraction_field32(bits: u32) -> int {
    bits as int % 0x80_0000
}

/// The number without its sign, in units of two to the power of -149.
pub open spec fn size32(bits: u32) -> int {
    let e = exponent_field32(bits);
    let f = fraction_field32(bits);
    if e == 0 {
        f
    } else {
        (0x80_0000 + f) * pow2((e - 1) as nat)
    }
}

/// The number that a 32-bit pattern stands for, in units of two to the power of -149.
pub open spec fn number32(bits: u32) -> int {
    if bits as int / 0x8000_0000 == 1 {
        -size32(bits)
    } else {
        size32(bits)
    }
}

/// Not a number: the highest exponent with a fraction.
pub open spec fn no_number32(bits: u32) -> bool {
    exponent_field32(bits) == 255 && fraction_field32(bits) != 0
}

/// The exponent field of a 64-bit float.
pub open spec fn exponent_field64(bits: u64) -> int {
    bits as int / 0x10_0000_0000_0000 % 2048
}

/// The fraction field of a 64-bit float.
pub open spec fn fraction_field64(bits: u64) -> int {
    bits as int % 0x10_0000_0000_0000
}

/// The number without its sign, in units of two to the power of -1074.
pub open spec fn size64(bits: u64) -> int {
    let e = exponent_field64(bits);
    let f = fraction_field64(bits);
    if e == 0 {
        f
    } else {
        (0x10_0000_0000_0000 + f) * pow2((e - 1) as nat)
    }
}

/// The number that a 64-bit pattern stands for, in units of two to the power of -1074.
pub open spec fn number64(bits: u64) -> int {
    if bits as int / 0x8000_0000_0000_0000 == 1 {
        -size64(bits)
    } else {
        size64(bits)
    }
}

/// Not a number: the highest exponent with a fraction.
pub open spec fn no_number64(bits: u64) -> bool {
    exponent_field64(bits) == 2047 && fraction_field64(bits) != 0
}

proof fn lemma_size(unit: int, e: int, f: int, g: int, h: int)
    requires
        unit > 0,
        0 <= f < unit,
        0 <= h < unit,
        0 <= e < g || 0 <= e == g && f < h,
    ensures
        (if e == 0 {
            f
        } else {
            (unit + f) * pow2((e - 1) as nat)
        }) < (if g == 0 {
            h
        } else {
            (unit + h) * pow2((g - 1) as nat)
        }),
{
    if g == 0 {
    } else if e == 0 {
        vstd::arithmetic::power2::lemma_pow2_pos((g - 1) as nat);
        let p = pow2((g - 1) as nat) as int;
        assert((unit + h) * p >= unit + h) by (nonlinear_arith)
            requires
                p >= 1,
                unit + h >= 0,
        ;
    } else {
        let p = pow2((e - 1) as nat) as int;
        vstd::arithmetic::power2::lemma_pow2_pos((e - 1) as nat);
        if e == g {
            assert((unit + f) * p < (unit + h) * p) by (nonlinear_arith)
                requires
                    p >= 1,
                    f < h,
            ;
        } else {
            let q = pow2((g - 1) as nat) as int;
            vstd::arithmetic::power2::lemma_pow2_unfold(e as nat);
            assert(q >= 2 * p) by {
                if e < g - 1 {
                    vstd::arithmetic::power2::lemma_pow2_strictly_increases(e as nat, (g - 1) as nat);
                }
            }
            assert((unit + f) * p < (unit + h) * q) by (nonlinear_arith)
                requires
                    p >= 1,
                    q >= 2 * p,
                    0 <= f < unit,
                    0 <= h,
            ;
        }
    }
}

proof fn lemma_fields32(bits: u32)
    ensures
        ({
            let m = float::magnitude32(bits);
            &&& (bits >= float::SIGN32) == (bits as int / 0x8000_0000 == 1)
            &&& exponent_field32(bits) == m / 0x80_0000
            &&& fraction_field32(bits) == m % 0x80_0000
            &&& 0 <= exponent_field32(bits) <= 255
            &&& m == exponent_field32(bits) * 0x80_0000 + fraction_field32(bits)
        }),
{
}

proof fn lemma_fields64(bits: u64)
    ensures
        ({
            let m = float::magnitude64(bits);
            &&& (bits >= float::SIGN64) == (bits as int / 0x8000_0000_0000_0000 == 1)
            &&& exponent_field64(bits) == m / 0x10_0000_0000_0000
            &&& fraction_field64(bits) == m % 0x10_0000_0000_0000
            &&& 0 <= exponent_field64(bits) <= 2047
            &&& m == exponent_field64(bits) * 0x10_0000_0000_0000 + fraction_field64(bits)
        }),
{
}

proof fn lemma_size32_rises(a: u32, b: u32)
    requires
        float::magnitude32(a) < float::magnitude32(b),
    ensures
        0 <= size32(a) < size32(b),
{
    lemma_fields32(a);
    lemma_fields32(b);
    let (e, f) = (exponent_field32(a), fraction_field32(a));
    lemma_size(0x80_0000, e, f, exponent_field32(b), fraction_field32(b));
    if e > 0 {
        assert((0x80_0000 + f) * pow2((e - 1) as nat) >= 0) by (nonlinear_arith)
            requires
                f >= 0,
        ;
    }
}

proof fn lemma_size64_rises(a: u64, b: u64)
    requires
        float::magnitude64(a) < float::magnitude64(b),
    ensures
        0 <= size64(a) < size64(b),
{
    lemma_fields64(a);
    lemma_fields64(b);
    let (e, f) = (exponent_field64(a), fraction_field64(a));
    lemma_size(0x10_0000_0000_0000, e, f, exponent_field64(b), fraction_field64(b));
    if e > 0 {
        assert((0x10_0000_0000_0000 + f) * pow2((e - 1) as nat) >= 0) by (nonlinear_arith)
            requires
                f >= 0,
        ;
    }
}

/// The order of 32-bit floats is that of their numbers: of two patterns that stand for
/// numbers, the one of the lesser number comes first. A pattern is a NaN exactly if it
/// stands for no number, and two are equal exactly if both stand for one and the same
/// number.
pub proof fn law_order_is_numeric32(a: u32, b: u32)
    ensures
        float::nan32(a) == no_number32(a),
        !no_number32(a) && !no_number32(b) ==> {
            &&& number32(a) < number32(b) ==> float::rank32(a) < float::rank32(b)
            &&& float::rank32(a) < float::rank32(b) ==> number32(a) <= number32(b)
            &&& number32(a) < number32(b) <==> float::rank32(float::key32(a)) < float::rank32(
                float::key32(b),
            )
            &&& number32(a) == number32(b) <==> float::rank32(float::key32(a)) == float::rank32(
                float::key32(b),
            )
        },
        float::equal32(a, b) <==> !no_number32(a) && !no_number32(b) && number32(a) == number32(b),
{
    lemma_fields32(a);
    lemma_fields32(b);
    let zero = 0u32;
    lemma_fields32(zero);
    if float::magnitude32(a) < float::magnitude32(b) {
        lemma_size32_rises(a, b);
    } else if float::magnitude32(b) < float::magnitude32(a) {
        lemma_size32_rises(b, a);
    }
    if float::magnitude32(a) > 0 {
        lemma_size32_rises(zero, a);
    }
    if float::magnitude32(b) > 0 {
        lemma_size32_rises(zero, b);
    }
}

/// The order of 64-bit floats is that of their numbers.
pub proof fn law_order_is_numeric64(a: u64, b: u64)
    ensures
        float::nan64(a) == no_number64(a),
        !no_number64(a) && !no_number64(b) ==> {
            &&& number64(a) < number64(b) ==> float::rank64(a) < float::rank64(b)
            &&& float::rank64(a) < float::rank64(b) ==> number64(a) <= number64(b)
            &&& number64(a) < number64(b) <==> float::rank64(float::key64(a)) < float::rank64(
                float::key64(b),
            )
            &&& number64(a) == number64(b) <==> float::rank64(float::key64(a)) == float::rank64(
                float::key64(b),
            )
        },
        float::equal64(a, b) <==> !no_number64(a) && !no_number64(b) && number64(a) == number64(b),
{
    lemma_fields64(a);
    lemma_fields64(b);
    let zero = 0u64;
    lemma_fields64(zero);
    if float::magnitude64(a) < float::magnitude64(b) {
        lemma_size64_rises(a, b);
    } else if float::magnitude64(b) < float::magnitude64(a) {
        lemma_size64_rises(b, a);
    }
    if float::magnitude64(a) > 0 {
        lemma_size64_rises(zero, a);
    }
    if float::magnitude64(b) > 0 {
        lemma_size64_rises(zero, b);
    }
}

/// The total order of patterns, NaNs included: without the sign bit they rise as
/// integers, with it they fall, and every pattern with it comes before every one
/// without.
pub proof fn law_order_of_patterns(a: u32, b: u32, c: u64, d: u64)
    ensures
        a < b < 0x8000_0000 ==> float::rank32(a) < float::rank32(b),
        0x8000_0000 <= a < b ==> float::rank32(b) < float::rank32(a),
        a < 0x8000_0000 <= b ==> float::rank32(b) < float::rank32(a),
        c < d < 0x8000_0000_0000_0000 ==> float::rank64(c) < float::rank64(d),
        0x8000_0000_0000_0000 <= c < d ==> float::rank64(d) < float::rank64(c),
        c < 0x8000_0000_0000_0000 <= d ==> float::rank64(d) < float::rank64(c),
{
}

proof fn lemma_halves(n: int, k: nat)
    requires
        n >= 0,
    ensures
        float::halves(n, k) <==> n % (pow2(k) as int) == 0,
    decreases k,
{
    vstd::arithmetic::power2::lemma_pow2_pos(k);
    if k == 0 {
        vstd::arithmetic::power2::lemma2_to64();
        assert(n % 1 == 0);
    } else {
        let p = pow2((k - 1) as nat) as int;
        vstd::arithmetic::power2::lemma_pow2_pos((k - 1) as nat);
        vstd::arithmetic::power2::lemma_pow2_unfold(k);
        assert(pow2(k) == 2 * p);
        lemma_halves(n / 2, (k - 1) as nat);
        if n % 2 == 0 {
            let m = n / 2;
            assert(n == 2 * m);
            vstd::arithmetic::div_mod::lemma_truncate_middle(m, 2, p);
            vstd::arithmetic::mul::lemma_mul_is_commutative(2, p);
            assert((2 * m) % (2 * p) == 2 * (m % p));
        } else if n % (2 * p) == 0 {
            let q = n / (2 * p);
            vstd::arithmetic::div_mod::lemma_fundamental_div_mod(n, 2 * p);
            assert(n == (2 * p) * q);
            assert((2 * p) * q == 2 * (p * q)) by (nonlinear_arith);
            assert(false);
        }
    }
}

/// A float is whole exactly if it is finite and its number is a multiple of one.
pub proof fn law_whole_is_integral(bits: u64)
    ensures
        float::whole64(bits) <==> exponent_field64(bits) != 2047 && number64(bits) % (pow2(
            1074,
        ) as int) == 0,
{
    lemma_fields64(bits);
    let e = exponent_field64(bits);
    let f = fraction_field64(bits);
    let one = pow2(1074) as int;
    vstd::arithmetic::power2::lemma_pow2_pos(1074);
    let s = float::significand64(bits);
    let step = if e == 0 {
        1
    } else {
        e
    };
    let p = pow2((step - 1) as nat) as int;
    vstd::arithmetic::power2::lemma_pow2_pos((step - 1) as nat);
    assert(size64(bits) == s * p) by {
        if e == 0 {
            vstd::arithmetic::power2::lemma2_to64();
            assert(pow2(0) == 1);
        }
    }
    assert(s >= 0);
    assert(s * p >= 0) by (nonlinear_arith)
        requires
            s >= 0,
            p >= 1,
    ;
    if step >= 1075 {
        let r = pow2((step - 1075) as nat) as int;
        vstd::arithmetic::power2::lemma_pow2_adds(1074, (step - 1075) as nat);
        assert(p == one * r);
        assert(s * (one * r) == (s * r) * one) by (nonlinear_arith);
        vstd::arithmetic::div_mod::lemma_mod_multiples_basic(s * r, one);
    } else {
        let k = (1075 - step) as nat;
        let r = pow2(k) as int;
        vstd::arithmetic::power2::lemma_pow2_pos(k);
        vstd::arithmetic::power2::lemma_pow2_adds((step - 1) as nat, k);
        assert(one == p * r);
        lemma_halves(s, k);
        vstd::arithmetic::div_mod::lemma_truncate_middle(s, p, r);
        assert((p * s) % (p * r) == p * (s % r));
        assert(p * s == s * p) by (nonlinear_arith);
        let m = s % r;
        assert(m >= 0);
        assert((p * m == 0) <==> (m == 0)) by (nonlinear_arith)
            requires
                p >= 1,
                m >= 0,
        ;
    }
    let v = size64(bits);
    assert((-v) % one == 0 <==> v % one == 0) by {
        lemma_negated_multiple(v, one);
        lemma_negated_multiple(-v, one);
    }
}

proof fn lemma_negated_multiple(v: int, d: int)
    requires
        d > 0,
    ensures
        v % d == 0 ==> (-v) % d == 0,
{
    if v % d == 0 {
        vstd::arithmetic::div_mod::lemma_fundamental_div_mod(v, d);
        let q = v / d;
        assert(v == d * q);
        assert(-v == (-q) * d) by (nonlinear_arith)
            requires
                v == d * q,
        ;
        vstd::arithmetic::div_mod::lemma_mod_multiples_basic(-q, d);
    }
}

} // verus!
