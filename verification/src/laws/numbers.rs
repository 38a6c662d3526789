//! Arithmetic, number formats and element sizes.

use vstd::arithmetic::power2::{lemma2_to64, lemma_pow2_pos, pow2};
use vstd::prelude::*;

use crate::dtype::{law_element_sizes, DType};
use crate::float::{
    f32_mag, law_product_is_nearest, law_quotient_is_nearest, lemma_mag_zero, lemma_nearest_rest,
    nearest_rest, rounds_to, F32,
};
use crate::formats::{
    e8m0_to_f32, f32_to_fp8, fp4_e2m1_reserved_to_f32, fp4_e2m1_to_f32, fp8_e4m3_to_f32,
    law_e8m0_is_power_of_two, law_fp4_is_binary, law_fp8_is_binary, law_fp8_of_is_nearest,
    law_fp8_of_special_numbers, law_fp8_round_trip, law_nibbles_unpack, nibble,
};

verus! {

/// Multiplication does not depend on the order of its factors.
pub proof fn law_multiplication_commutes(a: F32, b: F32, x: F32, y: F32)
    requires
        call_ensures(F32::times, (a, b), x),
        call_ensures(F32::times, (b, a), y),
    ensures
        x == y,
{
    let p = a.mag();
    let q = b.mag();
    assert(p * q == q * p) by (nonlinear_arith);
}

/// A product of finite numbers is the nearest to the exact one: no bit pattern lies closer.
pub proof fn law_multiplication_is_nearest(a: F32, b: F32, x: F32, other: nat)
    requires
        call_ensures(F32::times, (a, b), x),
        a.is_finite(),
        b.is_finite(),
        other <= 0x7F80_0000,
    ensures
        x.neg() == (a.neg() != b.neg()),
        ({
            let near = a.mag() * b.mag() - pow2(149) * x.mag();
            let far = a.mag() * b.mag() - pow2(149) * f32_mag(other);
            &&& -near <= far || -near <= -far
            &&& near <= far || near <= -far
        }),
{
    law_product_is_nearest(a, b, other);
}

/// A quotient of finite numbers is the nearest to the exact one.
pub proof fn law_division_is_nearest(a: F32, b: F32, x: F32, other: nat)
    requires
        call_ensures(F32::over, (a, b), x),
        a.is_finite(),
        b.is_finite(),
        b.rest() > 0,
        other <= 0x7F80_0000,
    ensures
        x.neg() == (a.neg() != b.neg()),
        ({
            let near = a.mag() * pow2(149) - b.mag() * x.mag();
            let far = a.mag() * pow2(149) - b.mag() * f32_mag(other);
            &&& -near <= far || -near <= -far
            &&& near <= far || near <= -far
        }),
{
    lemma_mag_zero(b.rest());
    law_quotient_is_nearest(a, b, other);
}

/// One is neutral: times one, and over one, a number stays as it is.
pub proof fn law_one_is_neutral(a: F32, one: F32, x: F32, y: F32)
    requires
        one.bits == 0x3F80_0000,
        !a.is_nan(),
        call_ensures(F32::times, (a, one), x),
        call_ensures(F32::over, (a, one), y),
    ensures
        x == a,
        y == a,
{
    lemma2_to64();
    assert(one.mag() == pow2(149)) by {
        assert(0x3F80_0000nat / 0x80_0000 == 127 && 0x3F80_0000nat % 0x80_0000 == 0);
        vstd::arithmetic::power2::lemma_pow2_adds(23, 126);
    }
    lemma_pow2_pos(149);
    lemma_mag_zero(a.rest());
    let m = a.mag();
    let p = pow2(149);
    if a.is_finite() {
        lemma_on_grid(m, p, a.rest());
    }
}

/// A number on the grid is its own rounding, whatever the unit.
proof fn lemma_on_grid(m: nat, den: nat, rest: nat)
    requires
        den > 0,
        rest < 0x7F80_0000,
        m == f32_mag(rest),
    ensures
        nearest_rest(m * den, den) == rest,
{
    crate::float::lemma_mag_step(rest);
    let b = f32_mag(rest + 1);
    assert(2 * (m * den) < den * (m + b)) by (nonlinear_arith)
        requires
            m < b,
            den > 0,
    ;
    if rest > 0 {
        crate::float::lemma_mag_step((rest - 1) as nat);
        let a = f32_mag((rest - 1) as nat);
        assert(2 * (m * den) > den * (a + m)) by (nonlinear_arith)
            requires
                a < m,
                den > 0,
        ;
    }
    assert(rounds_to(m * den, den, rest));
    lemma_nearest_rest(m * den, den, rest);
}

/// An fp8 byte that is decoded and encoded again comes back; negative zero loses its sign.
pub proof fn law_fp8_comes_back(b: u8, v: F32, r: u8)
    requires
        b != 0x7F,
        b != 0xFF,
        call_ensures(fp8_e4m3_to_f32, (b,), v),
        call_ensures(f32_to_fp8, (v,), r),
    ensures
        b != 0x80 ==> r == b,
        b == 0x80 ==> r == 0,
{
    law_fp8_round_trip(b);
}

/// fp8 bytes: units of `2^-9` below sixteen, doubling every eight bytes from the first
/// exponent on, the top bit for the sign, NaN where all other bits are set.
pub proof fn law_fp8_decoding(b: u8, v: F32, next: F32, opposite: F32)
    requires
        call_ensures(fp8_e4m3_to_f32, (b,), v),
        b < 120 ==> call_ensures(fp8_e4m3_to_f32, ((b + 8) as u8,), next),
        b < 128 ==> call_ensures(fp8_e4m3_to_f32, ((b + 128) as u8,), opposite),
    ensures
        v.is_nan() <==> b == 0x7F || b == 0xFF,
        b < 16 ==> v.value() == b * pow2(140),
        8 <= b < 119 ==> next.value() == 2 * v.value(),
        b < 127 ==> opposite.value() == -v.value(),
{
    law_fp8_is_binary(b);
    let p = pow2(140) as int;
    let f = crate::formats::fp8_value(b);
    assert((2 * f) * p == 2 * (f * p)) by (nonlinear_arith);
    assert((-f) * p == -(f * p)) by (nonlinear_arith);
    if 8 <= b < 119 {
        law_fp8_is_binary((b + 8) as u8);
    }
    if b < 127 {
        law_fp8_is_binary((b + 128) as u8);
    }
}

/// Encoding goes to the nearest byte; infinities to the largest of their sign, NaN to zero.
pub proof fn law_fp8_encoding(v: F32, r: u8, c: u8)
    requires
        call_ensures(f32_to_fp8, (v,), r),
        c != 0x7F,
        c != 0xFF,
    ensures
        r != 0x7F && r != 0xFF,
        v.is_nan() ==> r == 0,
        v.is_inf() && !v.neg() ==> r == 0x7E,
        v.is_inf() && v.neg() ==> r == 0xFE,
        v.is_finite() ==> ({
            let near = v.value() - crate::formats::fp8_value(r) * pow2(140);
            let far = v.value() - crate::formats::fp8_value(c) * pow2(140);
            &&& -near <= far || -near <= -far
            &&& near <= far || near <= -far
        }),
{
    law_fp8_of_special_numbers(v);
    if v.is_finite() {
        law_fp8_of_is_nearest(v, c);
    }
}

/// Scale bytes: 127 is one, and every step doubles, up to infinity.
pub proof fn law_scale_bytes(b: u8, one: F32, v: F32, next: F32)
    requires
        b < 255,
        call_ensures(e8m0_to_f32, (127,), one),
        call_ensures(e8m0_to_f32, (b,), v),
        call_ensures(e8m0_to_f32, ((b + 1) as u8,), next),
    ensures
        one.mag() == pow2(149),
        next.mag() == 2 * v.mag(),
        !v.neg(),
        v.is_finite(),
        next.is_inf() <==> b == 254,
{
    law_e8m0_is_power_of_two(b);
    law_e8m0_is_power_of_two((b + 1) as u8);
}

/// Nibbles: units of one half below four, doubling every two from there, the fourth bit for
/// the sign. Read with the top exponent reserved, the last two are infinity and NaN.
pub proof fn law_nibble_decoding(n: u8, v: F32, next: F32, reserved: F32)
    requires
        n < 16,
        call_ensures(fp4_e2m1_to_f32, (n,), v),
        call_ensures(fp4_e2m1_to_f32, ((n + 2) as u8,), next),
        call_ensures(fp4_e2m1_reserved_to_f32, (n,), reserved),
    ensures
        v.is_finite(),
        v.neg() == (n >= 8),
        n % 8 < 4 ==> v.mag() == (n % 8) * pow2(148),
        2 <= n % 8 < 6 ==> next.mag() == 2 * v.mag(),
        n % 8 < 6 ==> reserved == v,
        n % 8 == 6 ==> reserved.is_inf() && reserved.neg() == (n >= 8),
        n % 8 == 7 ==> reserved.is_nan(),
{
    law_fp4_is_binary(n);
}

/// A packed byte is its two elements, the first in the low half.
pub proof fn law_unpacking(packed: &[u8], k: usize, low: u8, high: u8)
    requires
        k < packed@.len(),
        2 * k + 1 <= usize::MAX,
        call_ensures(nibble, (packed, (2 * k) as usize), low),
        call_ensures(nibble, (packed, (2 * k + 1) as usize), high),
    ensures
        low < 16,
        high < 16,
        low + 16 * high == packed@[k as int],
{
    law_nibbles_unpack(packed@, k as int);
}

/// Element sizes in bits; those below a byte count as none.
pub proof fn law_sizes(d: DType, r: usize)
    requires
        call_ensures(DType::size_in_bytes, (&d,), r),
    ensures
        d is U8 || d is F8E4M3 || d is F8E8M0 ==> 8 * r == 8,
        d is I16 || d is BF16 || d is F16 ==> 8 * r == 16,
        d is U32 || d is I32 || d is F32 ==> 8 * r == 32,
        d is I64 || d is F64 ==> 8 * r == 64,
        d is F6E2M3 || d is F6E3M2 || d is F4 ==> r == 0,
{
    law_element_sizes(d);
}

} // verus!
