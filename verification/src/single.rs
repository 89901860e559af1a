//! IEEE 754 single-precision numbers, read from their 32 bits.
//!
//! A progress value is such a number. This library never computes with it:
//! it tells the finite from the rest, orders, and clamps, and all of that can
//! be read off the bits. This module says what the bits stand for.

use vstd::prelude::*;
use vstd::arithmetic::power2::{
    lemma2_to64, lemma_pow2_adds, lemma_pow2_pos, lemma_pow2_strictly_increases, lemma_pow2_unfold,
    pow2,
};

verus! {

/// The sign bit.
pub const SIGN_BIT: u32 = 0x8000_0000;

/// The bits of positive infinity. A larger magnitude is not a number.
pub const INFINITY_BITS: u32 = 0x7F80_0000;

/// The bits of `1.0`.
pub const ONE_BITS: u32 = 0x3F80_0000;

/// The bits of `1.0` less the machine epsilon, `1 - 2^-23`.
pub const NEARLY_ONE_BITS: u32 = 0x3F7F_FFFE;

/// The bits without the sign bit.
pub open spec fn magnitude(bits: u32) -> int {
    if bits >= SIGN_BIT {
        bits - SIGN_BIT
    } else {
        bits as int
    }
}

/// The sign bit is set (of a zero, an infinity and a NaN too).
pub open spec fn is_negative(bits: u32) -> bool {
    bits >= SIGN_BIT
}

/// Neither an infinity nor a NaN.
pub open spec fn is_finite(bits: u32) -> bool {
    magnitude(bits) < INFINITY_BITS
}

/// Not a number.
pub open spec fn is_nan(bits: u32) -> bool {
    magnitude(bits) > INFINITY_BITS
}

/// The biased exponent: the eight bits below the sign bit.
pub open spec fn exponent(bits: u32) -> int {
    magnitude(bits) / 0x80_0000
}

/// The fraction: the low 23 bits.
pub open spec fn fraction(bits: u32) -> int {
    magnitude(bits) % 0x80_0000
}

/// The absolute value of a finite single, times `2^149`: an integer, since
/// the smallest positive single is `2^-149`.
pub open spec fn scaled_magnitude(bits: u32) -> int {
    if exponent(bits) == 0 {
        fraction(bits)
    } else {
        (0x80_0000 + fraction(bits)) * pow2((exponent(bits) - 1) as nat)
    }
}

/// The value of a finite single, times `2^149`.
pub open spec fn scaled_value(bits: u32) -> int {
    if is_negative(bits) {
        -scaled_magnitude(bits)
    } else {
        scaled_magnitude(bits)
    }
}

/// `1.0`, times `2^149`.
pub open spec fn scaled_one() -> int {
    pow2(149) as int
}

/// The machine epsilon `2^-23`, times `2^149`.
pub open spec fn scaled_epsilon() -> int {
    pow2(126) as int
}

/// An integer that orders the singles that are numbers as their values do:
/// the magnitude, negated under a sign bit. Both zeros get 0.
pub open spec fn ordinal(bits: u32) -> int {
    if is_negative(bits) {
        -magnitude(bits)
    } else {
        magnitude(bits)
    }
}

/// A larger magnitude stands for a larger absolute value.
pub proof fn lemma_scaled_magnitude_increases(a: u32, b: u32)
    requires
        magnitude(a) < magnitude(b),
    ensures
        0 <= scaled_magnitude(a) < scaled_magnitude(b),
{
    let ea = exponent(a);
    let fa = fraction(a);
    let eb = exponent(b);
    let fb = fraction(b);
    assert(0 <= ea <= eb);
    if ea == eb {
        assert(fa < fb);
        if ea > 0 {
            let p = pow2((ea - 1) as nat) as int;
            lemma_pow2_pos((ea - 1) as nat);
            assert((0x80_0000 + fa) * p < (0x80_0000 + fb) * p) by (nonlinear_arith)
                requires
                    p > 0,
                    fa < fb,
            ;
            assert(0 <= (0x80_0000 + fa) * p) by (nonlinear_arith)
                requires
                    p > 0,
                    fa >= 0,
            ;
        }
    } else {
        let pb = pow2((eb - 1) as nat) as int;
        lemma_pow2_pos((eb - 1) as nat);
        assert(0x80_0000 * pb <= (0x80_0000 + fb) * pb) by (nonlinear_arith)
            requires
                pb > 0,
                fb >= 0,
        ;
        if ea == 0 {
            assert(0x80_0000 <= 0x80_0000 * pb) by (nonlinear_arith)
                requires
                    pb > 0,
            ;
        } else {
            let pa = pow2((ea - 1) as nat) as int;
            lemma_pow2_pos((ea - 1) as nat);
            lemma_pow2_unfold(ea as nat);
            assert(pow2(ea as nat) == 2 * pa);
            if ea < eb - 1 {
                lemma_pow2_strictly_increases(ea as nat, (eb - 1) as nat);
            }
            assert(2 * pa <= pb);
            assert((0x80_0000 + fa) * pa < 0x80_0000 * (2 * pa)) by (nonlinear_arith)
                requires
                    pa > 0,
                    fa < 0x80_0000,
            ;
            assert(0x80_0000 * (2 * pa) <= 0x80_0000 * pb) by (nonlinear_arith)
                requires
                    2 * pa <= pb,
            ;
            assert(0 <= (0x80_0000 + fa) * pa) by (nonlinear_arith)
                requires
                    pa > 0,
                    fa >= 0,
            ;
        }
    }
}

/// The bits of `1.0` stand for one.
pub proof fn lemma_scaled_one()
    ensures
        scaled_value(ONE_BITS) == scaled_one(),
{
    lemma2_to64();
    lemma_pow2_adds(23, 126);
    assert(exponent(ONE_BITS) == 127);
    assert(fraction(ONE_BITS) == 0);
}

/// The bits of `1 - 2^-23` stand for one less the machine epsilon.
pub proof fn lemma_scaled_nearly_one()
    ensures
        scaled_value(NEARLY_ONE_BITS) == scaled_one() - scaled_epsilon(),
{
    lemma2_to64();
    lemma_pow2_adds(24, 125);
    lemma_pow2_adds(1, 125);
    assert(exponent(NEARLY_ONE_BITS) == 126);
    assert(fraction(NEARLY_ONE_BITS) == 0x7F_FFFE);
    let p = pow2(125) as int;
    assert((0x80_0000 + 0x7F_FFFE) * p == 0x100_0000 * p - 2 * p) by (nonlinear_arith);
}

/// Only the two zeros stand for zero.
pub proof fn lemma_scaled_zero(bits: u32)
    ensures
        scaled_value(bits) == 0 <==> magnitude(bits) == 0,
{
    if magnitude(bits) > 0 {
        lemma_scaled_magnitude_increases(0, bits);
    }
}

/// Two singles compare by their ordinals as the numbers they stand for
/// compare.
pub proof fn lemma_ordinal_orders_values(a: u32, b: u32)
    ensures
        ordinal(a) < ordinal(b) <==> scaled_value(a) < scaled_value(b),
        ordinal(a) == ordinal(b) <==> scaled_value(a) == scaled_value(b),
{
    lemma_scaled_zero(a);
    lemma_scaled_zero(b);
    if magnitude(a) > 0 {
        lemma_scaled_magnitude_increases(0, a);
    }
    if magnitude(b) > 0 {
        lemma_scaled_magnitude_increases(0, b);
    }
    if magnitude(a) < magnitude(b) {
        lemma_scaled_magnitude_increases(a, b);
    }
    if magnitude(b) < magnitude(a) {
        lemma_scaled_magnitude_increases(b, a);
    }
}

} // verus!
