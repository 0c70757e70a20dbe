//! Floating-point feature values are carried as their IEEE-754 single
//! precision bit patterns (`f32::to_bits`). This module gives the
//! comparison that `f32`'s `==` performs, stated on those bit patterns,
//! and the bit patterns of the integers that an `f32` holds exactly.
use vstd::prelude::*;

verus! {

/// 2^23: the weight of the lowest exponent bit of an `f32`.
pub open spec fn mantissa_span() -> int {
    0x80_0000
}

/// The bit pattern encodes a NaN: all exponent bits set, mantissa non-zero.
pub open spec fn f32_is_nan(bits: u32) -> bool {
    &&& (bits as int / mantissa_span()) % 0x100 == 0xff
    &&& bits as int % mantissa_span() != 0
}

/// The bit pattern encodes `+0.0` or `-0.0`.
pub open spec fn f32_is_zero(bits: u32) -> bool {
    bits as int % 0x8000_0000 == 0
}

/// IEEE-754 equality of two `f32` values given by their bit patterns:
/// NaN equals nothing, the two zeros are equal, otherwise the patterns match.
pub open spec fn f32_equal(a: u32, b: u32) -> bool {
    &&& !f32_is_nan(a)
    &&& !f32_is_nan(b)
    &&& (a == b || (f32_is_zero(a) && f32_is_zero(b)))
}

/// Whether the bit pattern encodes a NaN.
pub fn f32_bits_is_nan(bits: u32) -> (r: bool)
    ensures
        r == f32_is_nan(bits),
{
    (bits / 0x80_0000) % 0x100 == 0xff && bits % 0x80_0000 != 0
}

/// `==` on the two `f32` values whose bit patterns are given.
pub fn f32_bits_equal(a: u32, b: u32) -> (r: bool)
    ensures
        r == f32_equal(a, b),
{
    if f32_bits_is_nan(a) || f32_bits_is_nan(b) {
        false
    } else {
        a == b || (a % 0x8000_0000 == 0 && b % 0x8000_0000 == 0)
    }
}

/// 2 to the power `e`.
pub open spec fn two_pow(e: nat) -> nat
    decreases e,
{
    if e == 0 {
        1
    } else {
        2 * two_pow((e - 1) as nat)
    }
}

/// The exponent of the highest set bit of `a` (0 for `a < 2`).
pub open spec fn log2_floor(a: nat) -> nat
    decreases a,
{
    if a < 2 {
        0
    } else {
        1 + log2_floor(a / 2)
    }
}

/// The integer is held exactly by an `f32`: its magnitude is below 2^24.
pub open spec fn exact_in_f32(n: int) -> bool {
    -0x100_0000 < n < 0x100_0000
}

/// The `f32` bit pattern of an integer that `f32` holds exactly: the sign
/// bit, the biased exponent of the highest set bit, and the bits below it
/// as the fraction.
pub open spec fn int_f32_bits(n: int) -> int {
    if n == 0 {
        0
    } else {
        let a = if n < 0 { -n } else { n };
        let e = log2_floor(a as nat);
        (if n < 0 { 0x8000_0000int } else { 0int }) + (127 + e) * 0x80_0000 + (a - two_pow(e)) * two_pow(
            (23 - e) as nat,
        )
    }
}

proof fn lemma_log2_floor(a: nat, e: nat)
    requires
        two_pow(e) <= a < 2 * two_pow(e),
    ensures
        log2_floor(a) == e,
    decreases e,
{
    if e > 0 {
        lemma_log2_floor(a / 2, (e - 1) as nat);
    } else {
        assert(a < 2);
    }
}

/// The `f32` bit pattern of an integer whose magnitude is below 2^24 (the
/// integers `f32` holds exactly); `None` for larger magnitudes.
pub fn small_int_f32_bits(n: i32) -> (r: Option<u32>)
    ensures
        r == if exact_in_f32(n as int) {
            Some(int_f32_bits(n as int) as u32)
        } else {
            None::<u32>
        },
{
    if n <= -0x100_0000 || n >= 0x100_0000 {
        return None;
    }
    if n == 0 {
        return Some(0);
    }
    let a: u32 = if n < 0 { (-n) as u32 } else { n as u32 };
    let mut e: u32 = 0;
    let mut p: u32 = 1;
    let mut q: u32 = 0x80_0000;
    proof {
        reveal_with_fuel(two_pow, 25);
        assert(two_pow(23) == 0x80_0000);
        assert(two_pow(24) == 0x100_0000);
    }
    while p <= a / 2
        invariant
            1 <= a < 0x100_0000,
            two_pow(24) == 0x100_0000,
            e <= 23,
            p == two_pow(e as nat),
            q == two_pow((23 - e) as nat),
            q <= 0x80_0000,
            p <= a,
        decreases 23 - e,
    {
        proof {
            // 2^e <= a / 2 < 2^23, so e < 23
            assert(e < 23) by {
                if e == 23 {
                    assert(two_pow(24) == 2 * two_pow(23));
                }
            }
            assert(two_pow((23 - e) as nat) == 2 * two_pow((22 - e) as nat));
        }
        p = p * 2;
        q = q / 2;
        e = e + 1;
    }
    proof {
        lemma_log2_floor(a as nat, e as nat);
    }
    let sign: u64 = if n < 0 { 0x8000_0000 } else { 0 };
    let m: u64 = (a - p) as u64;
    let qq: u64 = q as u64;
    assert(m * qq < 0x100_0000 * 0x80_0001) by (nonlinear_arith)
        requires
            m < 0x100_0000,
            qq <= 0x80_0000,
    ;
    let v: u64 = sign + (127 + e as u64) * 0x80_0000 + m * qq;
    Some(v as u32)
}

} // verus!
