//! Bit patterns of floating-point constants.

use vstd::prelude::*;

verus! {

/// The hexadecimal digit `d`, in upper case, for `d < 16`.
pub open spec fn hex_digit(d: nat) -> char {
    if d == 0 {
        '0'
    } else if d == 1 {
        '1'
    } else if d == 2 {
        '2'
    } else if d == 3 {
        '3'
    } else if d == 4 {
        '4'
    } else if d == 5 {
        '5'
    } else if d == 6 {
        '6'
    } else if d == 7 {
        '7'
    } else if d == 8 {
        '8'
    } else if d == 9 {
        '9'
    } else if d == 10 {
        'A'
    } else if d == 11 {
        'B'
    } else if d == 12 {
        'C'
    } else if d == 13 {
        'D'
    } else if d == 14 {
        'E'
    } else {
        'F'
    }
}

/// The character of a hexadecimal digit.
pub fn hex_char(d: u8) -> (c: char)
    requires
        d < 16,
    ensures
        c == hex_digit(d as nat),
{
    if d == 0 {
        '0'
    } else if d == 1 {
        '1'
    } else if d == 2 {
        '2'
    } else if d == 3 {
        '3'
    } else if d == 4 {
        '4'
    } else if d == 5 {
        '5'
    } else if d == 6 {
        '6'
    } else if d == 7 {
        '7'
    } else if d == 8 {
        '8'
    } else if d == 9 {
        '9'
    } else if d == 10 {
        'A'
    } else if d == 11 {
        'B'
    } else if d == 12 {
        'C'
    } else if d == 13 {
        'D'
    } else if d == 14 {
        'E'
    } else {
        'F'
    }
}

/// The last `n` hexadecimal digits of `x`.
pub open spec fn hex_digits(x: nat, n: nat) -> Seq<char>
    decreases n,
{
    if n == 0 {
        Seq::empty()
    } else {
        hex_digits(x / 16, (n - 1) as nat).push(hex_digit(x % 16))
    }
}

/// All sixteen hexadecimal digits of a 64-bit number.
pub open spec fn hex16(x: u64) -> Seq<char> {
    hex_digits(x as nat, 16)
}

fn push_hex(s: &mut String, x: u64, n: u32)
    ensures
        final(s)@ == old(s)@ + hex_digits(x as nat, n as nat),
    decreases n,
{
    if n > 0 {
        push_hex(s, x / 16, n - 1);
        s.push(hex_char((x % 16) as u8));
    }
    assert(s@ =~= old(s)@ + hex_digits(x as nat, n as nat));
}

/// All sixteen hexadecimal digits of `x`.
pub fn hex16_text(x: u64) -> (r: String)
    ensures
        r@ == hex16(x),
{
    let mut s = String::new();
    push_hex(&mut s, x, 16);
    assert(s@ =~= hex16(x));
    s
}

/// Sign, biased exponent and fraction of a single-precision pattern.
pub open spec fn single_parts(bits: u64) -> (nat, nat, nat) {
    let b = bits as nat % 0x1_0000_0000;
    (b / 0x8000_0000, b / 0x80_0000 % 0x100, b % 0x80_0000)
}

/// The double-precision pattern with this sign, biased exponent and
/// fraction.
pub open spec fn double_pattern(sign: nat, exponent: nat, fraction: nat) -> nat {
    sign * 0x8000_0000_0000_0000 + exponent * 0x10_0000_0000_0000 + fraction
}

/// Exponent and fraction of a denormal value, normalized: the fraction
/// doubles and the exponent falls until the leading bit is reached.
pub open spec fn normalized(exponent: nat, fraction: nat) -> (nat, nat)
    decreases exponent,
{
    if exponent == 0 || fraction >= 0x80_0000 {
        (exponent, fraction)
    } else {
        normalized((exponent - 1) as nat, fraction * 2)
    }
}

/// The double-precision pattern of a single-precision value. Every value has
/// one; zeros, infinities and signs stay, and a NaN becomes quiet.
pub open spec fn widened(bits: u64) -> u64 {
    let (sign, exponent, fraction) = single_parts(bits);
    if exponent == 0xff {
        if fraction == 0 {
            double_pattern(sign, 0x7ff, 0) as u64
        } else {
            double_pattern(
                sign,
                0x7ff,
                0x8_0000_0000_0000 + fraction % 0x40_0000 * 0x2000_0000,
            ) as u64
        }
    } else if exponent == 0 {
        if fraction == 0 {
            double_pattern(sign, 0, 0) as u64
        } else {
            let (e, f) = normalized(897, fraction);
            double_pattern(sign, e, f % 0x80_0000 * 0x2000_0000) as u64
        }
    } else {
        double_pattern(sign, exponent + 896, fraction * 0x2000_0000) as u64
    }
}

fn normalize(exponent: u64, fraction: u64) -> (r: (u64, u64))
    requires
        fraction < 0x100_0000,
        exponent <= 897,
    ensures
        (r.0 as nat, r.1 as nat) == normalized(exponent as nat, fraction as nat),
        r.0 <= 897,
        r.1 < 0x100_0000,
    decreases exponent,
{
    if exponent == 0 || fraction >= 0x80_0000 {
        (exponent, fraction)
    } else {
        normalize(exponent - 1, fraction * 2)
    }
}

/// Widen a single-precision pattern, in the low 32 bits, to double
/// precision.
pub fn widen_f32(bits: u64) -> (r: u64)
    ensures
        r == widened(bits),
{
    let b: u64 = bits % 0x1_0000_0000;
    let sign: u64 = b / 0x8000_0000;
    let exponent: u64 = b / 0x80_0000 % 0x100;
    let fraction: u64 = b % 0x80_0000;
    let top: u64 = sign * 0x8000_0000_0000_0000;
    if exponent == 0xff {
        if fraction == 0 {
            top + 0x7ff * 0x10_0000_0000_0000
        } else {
            top + 0x7ff * 0x10_0000_0000_0000 + 0x8_0000_0000_0000 + fraction % 0x40_0000
                * 0x2000_0000
        }
    } else if exponent == 0 {
        if fraction == 0 {
            top
        } else {
            let (e, f) = normalize(897, fraction);
            top + e * 0x10_0000_0000_0000 + f % 0x80_0000 * 0x2000_0000
        }
    } else {
        top + (exponent + 896) * 0x10_0000_0000_0000 + fraction * 0x2000_0000
    }
}

} // verus!
