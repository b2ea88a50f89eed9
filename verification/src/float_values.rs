//! Widening keeps the value of a floating-point number.
//!
//! The magnitude of a finite number is counted in units of the smallest
//! positive double, two to the power of minus 1074.

use vstd::arithmetic::power2;
use vstd::prelude::*;

use crate::float_bits;

verus! {

/// Sign, biased exponent and fraction of a double-precision pattern.
pub open spec fn double_parts(bits: u64) -> (nat, nat, nat) {
    let b = bits as nat;
    (b / 0x8000_0000_0000_0000, b / 0x10_0000_0000_0000 % 0x800, b % 0x10_0000_0000_0000)
}

/// The magnitude of a finite single-precision number.
pub open spec fn single_magnitude(exponent: nat, fraction: nat) -> nat {
    if exponent == 0 {
        fraction * power2::pow2(925)
    } else {
        (0x80_0000 + fraction) * power2::pow2(exponent + 924)
    }
}

/// The magnitude of a finite double-precision number.
pub open spec fn double_magnitude(exponent: nat, fraction: nat) -> nat {
    if exponent == 0 {
        fraction
    } else {
        (0x10_0000_0000_0000 + fraction) * power2::pow2((exponent - 1) as nat)
    }
}

proof fn lemma_pattern(sign: nat, exponent: nat, fraction: nat)
    requires
        sign < 2,
        exponent < 0x800,
        fraction < 0x10_0000_0000_0000,
    ensures
        double_parts(float_bits::double_pattern(sign, exponent, fraction) as u64) == (
            sign,
            exponent,
            fraction,
        ),
{
    let p = float_bits::double_pattern(sign, exponent, fraction);
    assert(p < 0x1_0000_0000_0000_0000);
    assert(p as u64 as nat == p);
    let high = sign * 0x800 + exponent;
    assert(p == high * 0x10_0000_0000_0000 + fraction);
    assert(p / 0x10_0000_0000_0000 == high);
    assert(p % 0x10_0000_0000_0000 == fraction);
    assert(high % 0x800 == exponent);
    assert(p / 0x8000_0000_0000_0000 == sign);
}

proof fn lemma_normalized(exponent: nat, fraction: nat, k: nat)
    requires
        0 < fraction < 0x100_0000,
        k <= exponent,
        fraction * power2::pow2(k) >= 0x80_0000,
    ensures
        ({
            let (e, f) = float_bits::normalized(exponent, fraction);
            &&& 0x80_0000 <= f < 0x100_0000
            &&& exponent - k <= e <= exponent
            &&& f * power2::pow2(e) == fraction * power2::pow2(exponent)
        }),
    decreases exponent,
{
    power2::lemma2_to64();
    if exponent != 0 && fraction < 0x80_0000 {
        if k == 0 {
            assert(power2::pow2(0) == 1);
            assert(fraction * 1 == fraction) by (nonlinear_arith);
        }
        let less = (k - 1) as nat;
        power2::lemma_pow2_adds(1, less);
        power2::lemma_pow2_adds(1, (exponent - 1) as nat);
        assert(power2::pow2(1) == 2);
        assert((fraction * 2) * power2::pow2(less) == fraction * (2 * power2::pow2(less))) by (nonlinear_arith);
        let rest = power2::pow2((exponent - 1) as nat);
        assert((fraction * 2) * rest == fraction * (2 * rest)) by (nonlinear_arith);
        lemma_normalized((exponent - 1) as nat, fraction * 2, less);
    } else if exponent == 0 {
        assert(k == 0);
        assert(power2::pow2(0) == 1);
    }
}

/// Widening keeps the sign. A finite number keeps its magnitude; an infinity
/// stays one, and what is no number stays none and becomes quiet.
pub proof fn lemma_widened(bits: u64)
    ensures
        ({
            let (sign, exponent, fraction) = float_bits::single_parts(bits);
            let (s, e, f) = double_parts(float_bits::widened(bits));
            &&& s == sign
            &&& exponent != 0xff ==> e != 0x7ff && double_magnitude(e, f) == single_magnitude(
                exponent,
                fraction,
            )
            &&& exponent == 0xff ==> e == 0x7ff && (f == 0 <==> fraction == 0) && (fraction != 0
                ==> f >= 0x8_0000_0000_0000)
        }),
{
    let (sign, exponent, fraction) = float_bits::single_parts(bits);
    power2::lemma2_to64();
    if exponent == 0xff {
        if fraction == 0 {
            lemma_pattern(sign, 0x7ff, 0);
        } else {
            lemma_pattern(sign, 0x7ff, 0x8_0000_0000_0000 + fraction % 0x40_0000 * 0x2000_0000);
        }
    } else if exponent == 0 {
        if fraction == 0 {
            lemma_pattern(sign, 0, 0);
            assert(0 * power2::pow2(925) == 0) by (nonlinear_arith);
        } else {
            assert(fraction * 0x80_0000 >= 0x80_0000);
            lemma_normalized(897, fraction, 23);
            let (e, f) = float_bits::normalized(897, fraction);
            let rest = (f - 0x80_0000) as nat;
            assert(f % 0x80_0000 == rest);
            lemma_pattern(sign, e, rest * 0x2000_0000);
            assert(0x10_0000_0000_0000 + rest * 0x2000_0000 == f * 0x2000_0000);
            power2::lemma_pow2_adds(28, 897);
            power2::lemma_pow2_adds(1, (e - 1) as nat);
            let low = power2::pow2((e - 1) as nat);
            let whole = power2::pow2(897);
            assert(power2::pow2(e) == 2 * low);
            assert((f * 0x2000_0000) * low == (f * (2 * low)) * 0x1000_0000) by (nonlinear_arith);
            assert((fraction * whole) * 0x1000_0000 == fraction * (0x1000_0000 * whole))
                by (nonlinear_arith);
        }
    } else {
        lemma_pattern(sign, exponent + 896, fraction * 0x2000_0000);
        power2::lemma_pow2_adds(29, exponent + 895);
        let low = power2::pow2(exponent + 895);
        let f = 0x80_0000 + fraction;
        assert(0x10_0000_0000_0000 + fraction * 0x2000_0000 == f * 0x2000_0000);
        assert((f * 0x2000_0000) * low == f * (0x2000_0000 * low)) by (nonlinear_arith);
    }
}

/// Numbers that are written alike are the same number.
pub proof fn lemma_hex_injective(x: nat, y: nat, n: nat)
    requires
        float_bits::hex_digits(x, n) == float_bits::hex_digits(y, n),
    ensures
        x % pow16(n) == y % pow16(n),
    decreases n,
{
    if n == 0 {
        assert(x % 1 == 0 && y % 1 == 0);
    } else {
        let less = (n - 1) as nat;
        let a = float_bits::hex_digits(x, n);
        let b = float_bits::hex_digits(y, n);
        assert(a.last() == b.last());
        assert(a.drop_last() =~= float_bits::hex_digits(x / 16, less));
        assert(b.drop_last() =~= float_bits::hex_digits(y / 16, less));
        lemma_hex_injective(x / 16, y / 16, less);
        assert(x % 16 == y % 16);
        lemma_pow16(less);
        let m = pow16(less);
        lemma_split(x, m);
        lemma_split(y, m);
    }
}

/// Sixteen to the power of `n`.
pub open spec fn pow16(n: nat) -> nat
    decreases n,
{
    if n == 0 {
        1
    } else {
        16 * pow16((n - 1) as nat)
    }
}

proof fn lemma_pow16(n: nat)
    ensures
        pow16(n) > 0,
    decreases n,
{
    if n > 0 {
        lemma_pow16((n - 1) as nat);
    }
}

proof fn lemma_split(x: nat, m: nat)
    requires
        m > 0,
    ensures
        x % (16 * m) == x % 16 + 16 * (x / 16 % m),
{
    vstd::arithmetic::div_mod::lemma_breakdown(x as int, 16, m as int);
}

} // verus!
