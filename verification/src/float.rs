//! IEEE-754 numbers held as bit patterns, with exact integer semantics.
//!
//! A finite single-precision number is `(-1)^s * mag * 2^-149` for a natural
//! number `mag`; every contract on numbers in this crate is stated over that
//! integer.

use vstd::arithmetic::mul::{lemma_mul_is_commutative, lemma_mul_strict_inequality};
use vstd::arithmetic::power2::{
    lemma2_to64, lemma2_to64_rest, lemma_pow2_adds, lemma_pow2_pos, lemma_pow2_strictly_increases,
    lemma_pow2_unfold, pow2,
};
use vstd::prelude::*;

verus! {

/// Size of the significand field of a single-precision number.
pub const MAN_SIZE: u32 = 0x80_0000;

/// Magnitude bits of infinity.
pub const INF_REST: u32 = 0x7F80_0000;

/// The bit pattern of an IEEE-754 single-precision number.
#[derive(Debug, Clone, Copy, PartialEq, Eq, Structural)]
pub struct F32 {
    pub bits: u32,
}

/// The bit pattern of an IEEE-754 double-precision number.
#[derive(Debug, Clone, Copy, PartialEq, Eq, Structural)]
pub struct F64 {
    pub bits: u64,
}

/// The magnitude, in units of `2^-149`, of the number whose bits below the sign
/// are `rest`. At `INF_REST` this is `2^128`, the first power of two out of
/// range.
pub open spec fn f32_mag(rest: nat) -> nat {
    let exp = rest / 0x80_0000;
    let man = rest % 0x80_0000;
    if exp == 0 {
        man
    } else {
        (0x80_0000 + man) * pow2((exp - 1) as nat)
    }
}

/// `rest` is `num / den` (in units of `2^-149`) rounded to nearest, ties to the
/// even bit pattern; a value at or past the midpoint beyond the largest finite
/// number rounds to infinity.
pub open spec fn rounds_to(num: nat, den: nat, rest: nat) -> bool {
    &&& rest <= INF_REST
    &&& rest > 0 ==> {
        let mid = den * (f32_mag((rest - 1) as nat) + f32_mag(rest));
        2 * num > mid || (2 * num == mid && rest % 2 == 0)
    }
    &&& rest < INF_REST ==> {
        let mid = den * (f32_mag(rest) + f32_mag(rest + 1));
        2 * num < mid || (2 * num == mid && rest % 2 == 0)
    }
}

/// The magnitude bits of `num / den` (in units of `2^-149`), rounded to nearest.
pub open spec fn nearest_rest(num: nat, den: nat) -> nat {
    choose|rest: nat| rounds_to(num, den, rest)
}

/// The number nearest to `mag` units of `2^-149`.
pub open spec fn f32_of(neg: bool, mag: nat) -> F32 {
    F32::pack(neg, nearest_rest(mag, 1))
}

impl F32 {
    pub open spec fn neg(self) -> bool {
        self.bits >= 0x8000_0000
    }

    /// The bits below the sign.
    pub open spec fn rest(self) -> nat {
        (self.bits % 0x8000_0000) as nat
    }

    pub open spec fn is_nan(self) -> bool {
        self.rest() > INF_REST
    }

    pub open spec fn is_inf(self) -> bool {
        self.rest() == INF_REST
    }

    pub open spec fn is_finite(self) -> bool {
        self.rest() < INF_REST
    }

    /// The magnitude in units of `2^-149`.
    pub open spec fn mag(self) -> nat {
        f32_mag(self.rest())
    }

    /// The signed value in units of `2^-149`.
    pub open spec fn value(self) -> int {
        if self.neg() {
            -(self.mag() as int)
        } else {
            self.mag() as int
        }
    }

    /// The quiet NaN that every operation of this crate returns.
    pub open spec fn spec_nan() -> F32 {
        F32 { bits: 0x7FC0_0000 }
    }

    pub open spec fn pack(neg: bool, rest: nat) -> F32 {
        F32 {
            bits: if neg {
                (0x8000_0000 + rest) as u32
            } else {
                rest as u32
            },
        }
    }

    /// The IEEE-754 product.
    pub open spec fn product(self, other: F32) -> F32 {
        let neg = self.neg() != other.neg();
        if self.is_nan() || other.is_nan() || (self.is_inf() && other.mag() == 0) || (self.mag()
            == 0 && other.is_inf()) {
            F32::spec_nan()
        } else if self.is_inf() || other.is_inf() {
            F32::pack(neg, INF_REST as nat)
        } else {
            F32::pack(neg, nearest_rest(self.mag() * other.mag(), pow2(149)))
        }
    }

    /// The IEEE-754 quotient.
    pub open spec fn quotient(self, other: F32) -> F32 {
        let neg = self.neg() != other.neg();
        if self.is_nan() || other.is_nan() || (self.is_inf() && other.is_inf()) || (self.mag() == 0
            && other.mag() == 0) {
            F32::spec_nan()
        } else if self.is_inf() || other.mag() == 0 {
            F32::pack(neg, INF_REST as nat)
        } else if other.is_inf() {
            F32::pack(neg, 0)
        } else {
            F32::pack(neg, nearest_rest(self.mag() * pow2(149), other.mag()))
        }
    }
}

/// One step of the bit pattern is one unit in the last place.
pub proof fn lemma_mag_step(rest: nat)
    ensures
        f32_mag(rest) < f32_mag(rest + 1),
        rest / 0x80_0000 == 0 ==> f32_mag(rest + 1) == f32_mag(rest) + 1,
        rest / 0x80_0000 > 0 ==> f32_mag(rest + 1) == f32_mag(rest) + pow2(
            (rest / 0x80_0000 - 1) as nat,
        ),
{
    let exp = rest / 0x80_0000;
    let man = rest % 0x80_0000;
    lemma2_to64();
    if exp > 0 {
        let p = pow2((exp - 1) as nat);
        lemma_pow2_pos((exp - 1) as nat);
        if man + 1 < 0x80_0000 {
            assert((rest + 1) / 0x80_0000 == exp && (rest + 1) % 0x80_0000 == man + 1);
            assert((0x80_0000 + (man + 1)) * p == (0x80_0000 + man) * p + p) by (nonlinear_arith);
        } else {
            assert((rest + 1) / 0x80_0000 == exp + 1 && (rest + 1) % 0x80_0000 == 0);
            lemma_pow2_unfold(exp);
            assert(pow2(exp) == 2 * p);
            assert(0x80_0000 * (2 * p) == (0x80_0000 + 0x7F_FFFF) * p + p) by (nonlinear_arith);
        }
    } else {
        assert(rest == man);
        if man + 1 < 0x80_0000 {
            assert((rest + 1) / 0x80_0000 == 0 && (rest + 1) % 0x80_0000 == man + 1);
        } else {
            let one = pow2(0);
            assert(one == 1);
            assert(rest + 1 == 0x80_0000);
            assert(0x80_0000nat / 0x80_0000 == 1 && 0x80_0000nat % 0x80_0000 == 0);
            assert(f32_mag(0x80_0000) == (0x80_0000 + 0) * one);
            assert((0x80_0000 + 0) * one == 0x80_0000);
        }
    }
}

/// Magnitudes grow strictly with the bit pattern.
pub proof fn lemma_mag_increases(a: nat, b: nat)
    requires
        a < b,
    ensures
        f32_mag(a) < f32_mag(b),
    decreases b - a,
{
    lemma_mag_step((b - 1) as nat);
    if a < b - 1 {
        lemma_mag_increases(a, (b - 1) as nat);
    }
}

/// At most one bit pattern is nearest.
pub proof fn lemma_rounds_to_unique(num: nat, den: nat, a: nat, b: nat)
    requires
        den > 0,
        rounds_to(num, den, a),
        rounds_to(num, den, b),
    ensures
        a == b,
{
    lemma_rounds_to_ordered(num, den, a, b);
    lemma_rounds_to_ordered(num, den, b, a);
}

proof fn lemma_rounds_to_ordered(num: nat, den: nat, a: nat, b: nat)
    requires
        den > 0,
        rounds_to(num, den, a),
        rounds_to(num, den, b),
    ensures
        a >= b,
{
    if a + 1 < b {
        let lo = f32_mag(a) + f32_mag(a + 1);
        let hi = f32_mag((b - 1) as nat) + f32_mag(b);
        lemma_mag_increases(a, (b - 1) as nat);
        lemma_mag_increases(a + 1, b);
        lemma_mul_strict_inequality(lo as int, hi as int, den as int);
        lemma_mul_is_commutative(lo as int, den as int);
        lemma_mul_is_commutative(hi as int, den as int);
    }
}

/// The magnitude bits that round to nearest are the ones the specification names.
pub proof fn lemma_nearest_rest(num: nat, den: nat, rest: nat)
    requires
        den > 0,
        rounds_to(num, den, rest),
    ensures
        nearest_rest(num, den) == rest,
{
    lemma_rounds_to_unique(num, den, nearest_rest(num, den), rest);
}

/// A number that single precision holds is its own rounding.
pub proof fn lemma_exact(neg: bool, rest: nat)
    requires
        rest <= INF_REST,
    ensures
        f32_of(neg, f32_mag(rest)) == F32::pack(neg, rest),
{
    let m = f32_mag(rest);
    if rest > 0 {
        lemma_mag_step((rest - 1) as nat);
    }
    lemma_mag_step(rest);
    lemma_nearest_rest(m, 1, rest);
}

/// Truncation is nearest below the midpoint, or on it at an even pattern.
proof fn lemma_round_down(num: nat, den: nat, rest: nat)
    requires
        den > 0,
        rest < INF_REST,
        den * f32_mag(rest) <= num,
        2 * num < den * (f32_mag(rest) + f32_mag(rest + 1)) || (2 * num == den * (f32_mag(rest)
            + f32_mag(rest + 1)) && rest % 2 == 0),
    ensures
        rounds_to(num, den, rest),
{
    if rest > 0 {
        let a = f32_mag((rest - 1) as nat);
        let b = f32_mag(rest);
        lemma_mag_step((rest - 1) as nat);
        assert(den * (a + b) < 2 * (den * b)) by (nonlinear_arith)
            requires
                a < b,
                den > 0,
        ;
    }
}

/// The next pattern is nearest above the midpoint, or on it from an odd pattern.
proof fn lemma_round_up(num: nat, den: nat, rest: nat)
    requires
        den > 0,
        rest < INF_REST,
        num < den * f32_mag(rest + 1),
        2 * num > den * (f32_mag(rest) + f32_mag(rest + 1)) || (2 * num == den * (f32_mag(rest)
            + f32_mag(rest + 1)) && rest % 2 == 1),
    ensures
        rounds_to(num, den, rest + 1),
{
    if rest + 1 < INF_REST {
        let a = f32_mag(rest + 1);
        let b = f32_mag(rest + 2);
        lemma_mag_step(rest + 1);
        assert(2 * (den * a) < den * (a + b)) by (nonlinear_arith)
            requires
                a < b,
                den > 0,
        ;
    }
}

/// Exponent offset that keeps every power of two in the rounding argument whole.
pub open spec fn bias() -> nat {
    1000
}

/// `m` units of `2^e` are `num / den` truncated, and `sticky` tells whether
/// anything was cut off.
pub open spec fn truncates(num: nat, den: nat, m: nat, e: int, sticky: bool) -> bool {
    let unit = den * pow2((e + bias()) as nat);
    let x = num * pow2(bias());
    &&& unit * m <= x
    &&& x < unit * (m + 1)
    &&& sticky <==> unit * m != x
}

/// Dropping the low bit of a truncation gives a truncation at the next exponent.
proof fn lemma_halve(num: nat, den: nat, m: nat, e: int, sticky: bool)
    requires
        e + bias() >= 0,
        truncates(num, den, m, e, sticky),
        den > 0,
    ensures
        truncates(num, den, m / 2, e + 1, sticky || m % 2 == 1),
{
    let p = pow2((e + bias()) as nat);
    let p2 = pow2((e + 1 + bias()) as nat);
    lemma_pow2_unfold((e + 1 + bias()) as nat);
    lemma_pow2_pos((e + bias()) as nat);
    assert(p2 == 2 * p);
    let unit = den * p;
    let h = m / 2;
    assert(den * (2 * p) == 2 * unit) by (nonlinear_arith)
        requires
            unit == den * p,
    ;
    assert(unit > 0) by (nonlinear_arith)
        requires
            unit == den * p,
            den > 0,
            p > 0,
    ;
    assert((2 * unit) * h == unit * (2 * h)) by (nonlinear_arith);
    assert((2 * unit) * (h + 1) == unit * (2 * h + 2)) by (nonlinear_arith);
    if m % 2 == 1 {
        assert(m == 2 * h + 1);
        assert(unit * m == unit * (2 * h) + unit) by (nonlinear_arith)
            requires
                m == 2 * h + 1,
        ;
    } else {
        assert(m == 2 * h);
        assert(unit * (2 * h + 2) == unit * (m + 1) + unit) by (nonlinear_arith)
            requires
                m == 2 * h,
        ;
    }
}

/// The value of a normalised significand at its bit pattern.
pub proof fn lemma_mag_of_parts(kept: nat, x: nat)
    requires
        kept < 0x100_0000,
        x > 0 ==> kept >= 0x80_0000,
    ensures
        f32_mag(x * 0x80_0000 + kept) == kept * pow2(x),
        f32_mag(x * 0x80_0000 + kept + 1) == (kept + 1) * pow2(x),
{
    let rest = x * 0x80_0000 + kept;
    lemma2_to64();
    lemma_mag_step(rest);
    if kept < 0x80_0000 {
        assert(x == 0);
        assert(rest / 0x80_0000 == 0 && rest % 0x80_0000 == kept);
        assert(pow2(0) == 1);
    } else {
        assert(rest / 0x80_0000 == x + 1 && rest % 0x80_0000 == kept - 0x80_0000);
        assert((kept + 1) * pow2(x) == kept * pow2(x) + pow2(x)) by (nonlinear_arith);
    }
}

/// Chooses between the truncated pattern and the next one.
proof fn lemma_choose_rounding(num: nat, den: nat, q: nat, e: int, sticky: bool)
    requires
        den > 0,
        e + bias() >= 0,
        e + 1 >= 0,
        truncates(num, den, q, e, sticky),
        q < 0x200_0000,
        e + 1 > 0 ==> q >= 0x100_0000,
        (e + 1) * 0x80_0000 + q / 2 < INF_REST,
    ensures
        ({
            let rest = ((e + 1) * 0x80_0000 + q / 2) as nat;
            rounds_to(
                num,
                den,
                if q % 2 == 1 && (sticky || rest % 2 == 1) {
                    rest + 1
                } else {
                    rest
                },
            )
        }),
{
    let x = (e + 1) as nat;
    let kept = q / 2;
    let rest = x * 0x80_0000 + kept;
    let lo = f32_mag(rest);
    let hi = f32_mag(rest + 1);
    lemma_mag_of_parts(kept, x);
    let big = pow2(bias());
    lemma_pow2_pos(bias());
    let p = pow2((e + bias()) as nat);
    lemma_pow2_pos((e + bias()) as nat);
    let unit = den * p;
    // 2 * unit = den * pow2(x) * big
    lemma_pow2_unfold((e + bias() + 1) as nat);
    lemma_pow2_adds(x, bias());
    assert(pow2(x) * big == 2 * p);
    let px = pow2(x);
    assert(big * (den * (kept * px)) == unit * (2 * kept)) by (nonlinear_arith)
        requires
            px * big == 2 * p,
            unit == den * p,
    ;
    assert(big * (den * ((kept + 1) * px)) == unit * (2 * kept + 2)) by (nonlinear_arith)
        requires
            px * big == 2 * p,
            unit == den * p,
    ;
    let xx = num * big;
    let mid = den * (lo + hi);
    assert(big * mid == big * (den * lo) + big * (den * hi)) by (nonlinear_arith)
        requires
            mid == den * (lo + hi),
    ;
    assert(unit * (2 * kept) + unit * (2 * kept + 2) == 2 * (unit * (2 * kept + 1)))
        by (nonlinear_arith);
    assert(big * (2 * num) == 2 * xx) by (nonlinear_arith)
        requires
            xx == num * big,
    ;
    assert(big * num == xx) by (nonlinear_arith)
        requires
            xx == num * big,
    ;
    // Compare after cancelling the common factor.
    let odd = q % 2 == 1;
    if odd {
        assert(q == 2 * kept + 1);
    } else {
        assert(q == 2 * kept);
    }
    lemma_cancel(den * lo, num, big);
    lemma_cancel(num, den * hi, big);
    lemma_cancel(2 * num, mid, big);
    lemma_cancel(mid, 2 * num, big);
    assert(unit * (2 * kept) <= unit * q) by (nonlinear_arith)
        requires
            2 * kept <= q,
    ;
    assert(unit * (q + 1) <= unit * (2 * kept + 2)) by (nonlinear_arith)
        requires
            q + 1 <= 2 * kept + 2,
    ;
    if odd && (sticky || rest % 2 == 1) {
        lemma_round_up(num, den, rest);
    } else {
        lemma_round_down(num, den, rest);
    }
}

/// Scaling by a positive factor keeps order.
proof fn lemma_cancel(a: nat, b: nat, k: nat)
    requires
        k > 0,
    ensures
        k * a < k * b ==> a < b,
        k * a <= k * b ==> a <= b,
        k * a == k * b ==> a == b,
{
    assert(a >= b ==> k * a >= k * b) by (nonlinear_arith);
    assert(a > b ==> k * a > k * b) by (nonlinear_arith)
        requires
            k > 0,
    ;
    assert(b > a ==> k * b > k * a) by (nonlinear_arith)
        requires
            k > 0,
    ;
}

/// A truncation that reaches `2^128` rounds to infinity.
proof fn lemma_overflow(num: nat, den: nat, q: nat, e: int, sticky: bool)
    requires
        den > 0,
        e >= 253,
        q >= 0x100_0000,
        truncates(num, den, q, e, sticky),
    ensures
        rounds_to(num, den, INF_REST as nat),
{
    let top = f32_mag(INF_REST as nat);
    let big = pow2(bias());
    lemma_pow2_pos(bias());
    let p254 = pow2(254);
    assert(top == 0x80_0000 * p254);
    lemma_mag_step((INF_REST - 1) as nat);
    let d = (e - 253) as nat;
    let pd = pow2(d);
    lemma_pow2_pos(d);
    lemma_pow2_adds(254, bias());
    lemma_pow2_adds((254 + bias()) as nat, d);
    lemma_pow2_unfold((e + 1 + bias()) as nat);
    let p = pow2((e + bias()) as nat);
    assert(2 * p == (p254 * big) * pd);
    let unit = den * p;
    assert(big * (den * top) <= unit * 0x100_0000) by (nonlinear_arith)
        requires
            top == 0x80_0000 * p254,
            unit == den * p,
            2 * p == (p254 * big) * pd,
            pd >= 1,
            den > 0,
    {
        assert((p254 * big) * pd >= p254 * big);
        assert(big * (den * (0x80_0000 * p254)) == 0x80_0000 * (den * (p254 * big)));
        assert(den * (2 * p) >= den * (p254 * big));
    }
    assert(unit * 0x100_0000 <= unit * q) by (nonlinear_arith)
        requires
            q >= 0x100_0000,
    ;
    assert(big * num == num * big) by (nonlinear_arith);
    lemma_cancel(den * top, num, big);
    let below = f32_mag((INF_REST - 1) as nat);
    assert(den * (below + top) < 2 * (den * top)) by (nonlinear_arith)
        requires
            below < top,
            den > 0,
    ;
}

/// Rounds a truncated quotient to the nearest magnitude bits.
fn round_rest(m: u128, e: i128, cut: bool, Ghost(num): Ghost<nat>, Ghost(den): Ghost<nat>) -> (rest:
    u32)
    requires
        den > 0,
        0x100_0000 <= m < 0x1_0000_0000_0000_0000_0000_0000,
        -900 <= e <= 900,
        truncates(num, den, m as nat, e as int, cut),
    ensures
        rest <= INF_REST,
        rest == nearest_rest(num, den),
{
    let mut q: u128 = m;
    let mut t: i128 = e;
    let mut sticky: bool = cut;
    while q >= 0x200_0000 || t + 1 < 0
        invariant
            den > 0,
            -900 <= t,
            -900 <= e <= 900,
            m < 0x1_0000_0000_0000_0000_0000_0000,
            t < 0 || t + q <= e + m,
            q <= m,
            q >= 0x100_0000 || t + 1 <= 0,
            truncates(num, den, q as nat, t as int, sticky),
        decreases q + if t + 1 < 0 { -(t + 1) } else { 0 },
    {
        proof {
            lemma_halve(num, den, q as nat, t as int, sticky);
        }
        sticky = sticky || q % 2 == 1;
        q = q / 2;
        t = t + 1;
    }
    let x: i128 = t + 1;
    if x >= 254 {
        proof {
            lemma_overflow(num, den, q as nat, t as int, sticky);
            lemma_nearest_rest(num, den, INF_REST as nat);
        }
        return INF_REST;
    }
    let rest: u32 = (x as u32) * MAN_SIZE + (q / 2) as u32;
    proof {
        lemma_choose_rounding(num, den, q as nat, t as int, sticky);
    }
    if q % 2 == 1 && (sticky || rest % 2 == 1) {
        proof {
            lemma_nearest_rest(num, den, (rest + 1) as nat);
        }
        rest + 1
    } else {
        proof {
            lemma_nearest_rest(num, den, rest as nat);
        }
        rest
    }
}

/// The significand and exponent of a magnitude.
fn split_rest(rest: u32) -> (parts: (u32, u32))
    requires
        rest < INF_REST,
    ensures
        parts.0 < 0x100_0000,
        parts.1 <= 253,
        f32_mag(rest as nat) == parts.0 * pow2(parts.1 as nat),
        parts.0 == 0 <==> rest == 0,
{
    let exp: u32 = rest / MAN_SIZE;
    let man: u32 = rest % MAN_SIZE;
    if exp == 0 {
        proof {
            lemma2_to64();
            assert(man * pow2(0) == man);
        }
        (man, 0)
    } else {
        (MAN_SIZE + man, exp - 1)
    }
}

impl F32 {
    /// The sign bit.
    pub fn is_negative(self) -> (r: bool)
        ensures
            r == self.neg(),
    {
        self.bits >= 0x8000_0000
    }

    /// The bits below the sign.
    pub fn magnitude_bits(self) -> (r: u32)
        ensures
            r == self.rest(),
    {
        self.bits % 0x8000_0000
    }

    /// Joins a sign and magnitude bits.
    pub fn from_parts(neg: bool, rest: u32) -> (r: F32)
        requires
            rest < 0x8000_0000,
        ensures
            r == F32::pack(neg, rest as nat),
            r.neg() == neg,
            r.rest() == rest,
    {
        if neg {
            F32 { bits: 0x8000_0000 + rest }
        } else {
            F32 { bits: rest }
        }
    }

    /// IEEE-754 multiplication, rounding to nearest.
    pub fn times(self, other: F32) -> (r: F32)
        ensures
            r == self.product(other),
    {
        let a: u32 = self.magnitude_bits();
        let b: u32 = other.magnitude_bits();
        let neg: bool = self.is_negative() != other.is_negative();
        proof {
            lemma_mag_zero(a as nat);
            lemma_mag_zero(b as nat);
        }
        if a > INF_REST || b > INF_REST || (a == INF_REST && b == 0) || (a == 0 && b == INF_REST) {
            return F32 { bits: 0x7FC0_0000 };
        }
        if a == INF_REST || b == INF_REST {
            return F32::from_parts(neg, INF_REST);
        }
        let ghost num: nat = f32_mag(a as nat) * f32_mag(b as nat);
        let ghost den: nat = pow2(149);
        proof {
            lemma_pow2_pos(149);
        }
        if a == 0 || b == 0 {
            proof {
                assert(num == 0) by (nonlinear_arith)
                    requires
                        num == f32_mag(a as nat) * f32_mag(b as nat),
                        f32_mag(a as nat) == 0 || f32_mag(b as nat) == 0,
                ;
                lemma_rounds_zero(den);
            }
            return F32::from_parts(neg, 0);
        }
        let (sa, ea) = split_rest(a);
        let (sb, eb) = split_rest(b);
        let sig: u64 = mul_sig(sa, sb);
        let m: u128 = (sig as u128) * 0x100_0000;
        let e: i128 = ea as i128 + eb as i128 - 173;
        proof {
            lemma_product_exact(sa as nat, ea as nat, sb as nat, eb as nat);
        }
        let rest: u32 = round_rest(m, e, false, Ghost(num), Ghost(den));
        F32::from_parts(neg, rest)
    }

    /// IEEE-754 division, rounding to nearest.
    pub fn over(self, other: F32) -> (r: F32)
        ensures
            r == self.quotient(other),
    {
        let a: u32 = self.magnitude_bits();
        let b: u32 = other.magnitude_bits();
        let neg: bool = self.is_negative() != other.is_negative();
        proof {
            lemma_mag_zero(a as nat);
            lemma_mag_zero(b as nat);
        }
        if a > INF_REST || b > INF_REST || (a == INF_REST && b == INF_REST) || (a == 0 && b == 0) {
            return F32 { bits: 0x7FC0_0000 };
        }
        if a == INF_REST || b == 0 {
            return F32::from_parts(neg, INF_REST);
        }
        if b == INF_REST {
            return F32::from_parts(neg, 0);
        }
        let ghost num: nat = f32_mag(a as nat) * pow2(149);
        let ghost den: nat = f32_mag(b as nat);
        if a == 0 {
            proof {
                assert(num == 0) by (nonlinear_arith)
                    requires
                        num == f32_mag(a as nat) * pow2(149),
                        f32_mag(a as nat) == 0,
                ;
                lemma_rounds_zero(den);
            }
            return F32::from_parts(neg, 0);
        }
        let (sa, ea) = split_rest(a);
        let (sb, eb) = split_rest(b);
        let top: u128 = (sa as u128) * 0x1_0000_0000_0000;
        let m: u128 = top / (sb as u128);
        let cut: bool = top % (sb as u128) != 0;
        let e: i128 = ea as i128 - eb as i128 + 101;
        proof {
            lemma_quotient_truncates(sa as nat, ea as nat, sb as nat, eb as nat);
            assert(m >= 0x100_0000) by (nonlinear_arith)
                requires
                    m == top / (sb as u128),
                    top >= 0x1_0000_0000_0000,
                    0 < sb < 0x100_0000,
            ;
            assert(m <= top) by (nonlinear_arith)
                requires
                    m == top / (sb as u128),
                    0 < sb,
            ;
        }
        let rest: u32 = round_rest(m, e, cut, Ghost(num), Ghost(den));
        F32::from_parts(neg, rest)
    }
}

fn mul_sig(a: u32, b: u32) -> (r: u64)
    requires
        0 < a < 0x100_0000,
        0 < b < 0x100_0000,
    ensures
        r == a * b,
        0 < r < 0x1_0000_0000_0000,
{
    proof {
        assert(0 < a * b < 0x1_0000_0000_0000) by (nonlinear_arith)
            requires
                0 < a < 0x100_0000,
                0 < b < 0x100_0000,
        ;
    }
    (a as u64) * (b as u64)
}

/// Only the zero pattern has magnitude zero.
pub proof fn lemma_mag_zero(rest: nat)
    ensures
        f32_mag(rest) == 0 <==> rest == 0,
{
    assert(f32_mag(0) == 0);
    if rest > 0 {
        lemma_mag_increases(0, rest);
    }
}

/// Zero rounds to zero.
pub proof fn lemma_rounds_zero(den: nat)
    requires
        den > 0,
    ensures
        nearest_rest(0, den) == 0,
{
    lemma_mag_zero(0);
    lemma_mag_step(0);
    assert(den * (f32_mag(0) + f32_mag(1)) > 0) by (nonlinear_arith)
        requires
            den > 0,
            f32_mag(0) + f32_mag(1) > 0,
    ;
    lemma_nearest_rest(0, den, 0);
}

/// A short significand at any exponent below `2^128` is a single-precision
/// magnitude.
pub proof fn lemma_representable(sig: nat, e: nat) -> (rest: nat)
    requires
        sig < 0x100_0000,
        sig * pow2(e) < pow2(277),
    ensures
        rest < INF_REST,
        f32_mag(rest) == sig * pow2(e),
    decreases e,
{
    lemma2_to64();
    if sig == 0 {
        assert(sig * pow2(e) == 0) by (nonlinear_arith)
            requires
                sig == 0,
        ;
        assert(f32_mag(0) == 0);
        0
    } else if sig >= 0x80_0000 || e == 0 {
        if e >= 254 {
            lemma_pow2_adds(23, e);
            if e > 254 {
                lemma_pow2_strictly_increases(277, (23 + e) as nat);
            }
            assert(sig * pow2(e) >= 0x80_0000 * pow2(e)) by (nonlinear_arith)
                requires
                    sig >= 0x80_0000,
            ;
        }
        lemma_mag_of_parts(sig, e);
        (e * 0x80_0000 + sig) as nat
    } else {
        lemma_pow2_unfold(e);
        let p = pow2((e - 1) as nat);
        assert((2 * sig) * p == sig * (2 * p)) by (nonlinear_arith);
        lemma_representable(2 * sig, (e - 1) as nat)
    }
}

/// A product with a power of two never rounds: it is exact, or infinite where it
/// leaves the range.
pub proof fn lemma_product_by_power(a: F32, b: F32, sig: nat, e: nat)
    requires
        a.is_finite(),
        b.is_finite(),
        sig < 0x100_0000,
        a.mag() * b.mag() == (sig * pow2(e)) * pow2(149),
    ensures
        sig * pow2(e) < pow2(277) ==> a.product(b).is_finite() && a.product(b).mag() == sig * pow2(e)
            && a.product(b).neg() == (a.neg() != b.neg()),
        sig * pow2(e) >= pow2(277) ==> a.product(b) == F32::pack(
            a.neg() != b.neg(),
            INF_REST as nat,
        ),
{
    let neg = a.neg() != b.neg();
    let v = sig * pow2(e);
    let den = pow2(149);
    lemma_pow2_pos(149);
    if v < pow2(277) {
        let rest = lemma_representable(sig, e);
        lemma_product_is_exact(a, b, rest);
        lemma_pack(neg, rest);
    } else {
        let top = f32_mag(INF_REST as nat);
        lemma_top();
        lemma_mag_step((INF_REST - 1) as nat);
        let below = f32_mag((INF_REST - 1) as nat);
        assert(2 * (v * den) > den * (below + top)) by (nonlinear_arith)
            requires
                below < top,
                top <= v,
                den > 0,
        ;
        lemma_nearest_rest(v * den, den, INF_REST as nat);
    }
}

/// The magnitude at infinity's bits is `2^128`.
pub proof fn lemma_top()
    ensures
        f32_mag(INF_REST as nat) == pow2(277),
{
    lemma2_to64();
    lemma_pow2_adds(23, 254);
    assert(0x7F80_0000nat / 0x80_0000 == 255 && 0x7F80_0000nat % 0x80_0000 == 0);
}

/// Packing keeps the sign and the magnitude bits.
pub proof fn lemma_pack(neg: bool, rest: nat)
    requires
        rest < 0x8000_0000,
    ensures
        F32::pack(neg, rest).neg() == neg,
        F32::pack(neg, rest).rest() == rest,
{
}

/// A product that single precision holds is returned exactly.
pub proof fn lemma_product_is_exact(a: F32, b: F32, rest: nat)
    requires
        a.is_finite(),
        b.is_finite(),
        rest <= INF_REST,
        a.mag() * b.mag() == f32_mag(rest) * pow2(149),
    ensures
        a.product(b) == F32::pack(a.neg() != b.neg(), rest),
{
    let den = pow2(149);
    let m = f32_mag(rest);
    lemma_pow2_pos(149);
    lemma_mag_step(rest);
    let up = f32_mag(rest + 1);
    assert(2 * (m * den) < den * (m + up)) by (nonlinear_arith)
        requires
            m < up,
            den > 0,
    ;
    if rest > 0 {
        lemma_mag_step((rest - 1) as nat);
        let down = f32_mag((rest - 1) as nat);
        assert(2 * (m * den) > den * (down + m)) by (nonlinear_arith)
            requires
                down < m,
                den > 0,
        ;
    }
    lemma_nearest_rest(m * den, den, rest);
}

/// The product of two significands carries the whole product.
proof fn lemma_product_exact(sa: nat, ea: nat, sb: nat, eb: nat)
    requires
        ea <= 253,
        eb <= 253,
    ensures
        truncates(
            (sa * pow2(ea)) * (sb * pow2(eb)),
            pow2(149),
            (sa * sb) * 0x100_0000,
            ea + eb - 173,
            false,
        ),
{
    let pa = pow2(ea);
    let pb = pow2(eb);
    let big = pow2(bias());
    let den = pow2(149);
    let k = (ea + eb - 173 + bias()) as nat;
    let pk = pow2(k);
    let m = (sa * sb) * 0x100_0000;
    lemma2_to64();
    assert(pow2(24) == 0x100_0000);
    lemma_pow2_adds(149, k);
    lemma_pow2_adds((149 + k) as nat, 24);
    lemma_pow2_adds(ea, eb);
    lemma_pow2_adds((ea + eb) as nat, bias());
    assert((149 + k) + 24 == (ea + eb) + bias());
    let unit = den * pk;
    assert(unit * 0x100_0000 == (pa * pb) * big);
    let x = ((sa * pa) * (sb * pb)) * big;
    assert(unit * m == x) by (nonlinear_arith)
        requires
            unit * 0x100_0000 == (pa * pb) * big,
            m == (sa * sb) * 0x100_0000,
            x == ((sa * pa) * (sb * pb)) * big,
    {
        assert(unit * ((sa * sb) * 0x100_0000) == (unit * 0x100_0000) * (sa * sb));
        assert(((pa * pb) * big) * (sa * sb) == ((sa * pa) * (sb * pb)) * big);
    }
    lemma_pow2_pos(149);
    lemma_pow2_pos(k);
    assert(unit * (m + 1) == unit * m + unit) by (nonlinear_arith);
    assert(unit > 0) by (nonlinear_arith)
        requires
            unit == den * pk,
            den > 0,
            pk > 0,
    ;
}

/// The truncated quotient of two significands is the quotient, truncated.
proof fn lemma_quotient_truncates(sa: nat, ea: nat, sb: nat, eb: nat)
    requires
        ea <= 253,
        eb <= 253,
        sb > 0,
    ensures
        truncates(
            (sa * pow2(ea)) * pow2(149),
            sb * pow2(eb),
            (sa * 0x1_0000_0000_0000) / sb,
            ea - eb + 101,
            (sa * 0x1_0000_0000_0000) % sb != 0,
        ),
{
    let pa = pow2(ea);
    let pb = pow2(eb);
    let big = pow2(bias());
    let k = (ea - eb + 101 + bias()) as nat;
    let pk = pow2(k);
    let top = sa * 0x1_0000_0000_0000;
    let m = top / sb;
    let r = top % sb;
    vstd::arithmetic::div_mod::lemma_fundamental_div_mod(top as int, sb as int);
    assert(top == sb * m + r);
    lemma2_to64_rest();
    assert(pow2(48) == 0x1_0000_0000_0000);
    lemma_pow2_adds(eb, k);
    lemma_pow2_adds((eb + k) as nat, 48);
    lemma_pow2_adds(ea, 149);
    lemma_pow2_adds((ea + 149) as nat, bias());
    assert((eb + k) + 48 == (ea + 149) + bias());
    let g = pb * pk;
    lemma_pow2_pos(eb);
    lemma_pow2_pos(k);
    assert(g > 0) by (nonlinear_arith)
        requires
            g == pb * pk,
            pb > 0,
            pk > 0,
    ;
    let p149 = pow2(149);
    assert(g * 0x1_0000_0000_0000 == (pa * p149) * big);
    let unit = (sb * pb) * pk;
    let x = ((sa * pa) * p149) * big;
    assert(unit == sb * g) by (nonlinear_arith)
        requires
            unit == (sb * pb) * pk,
            g == pb * pk,
    ;
    assert(x == g * top) by (nonlinear_arith)
        requires
            x == ((sa * pa) * p149) * big,
            top == sa * 0x1_0000_0000_0000,
            g * 0x1_0000_0000_0000 == (pa * p149) * big,
    {
        assert(g * (sa * 0x1_0000_0000_0000) == (g * 0x1_0000_0000_0000) * sa);
        assert(((pa * p149) * big) * sa == ((sa * pa) * p149) * big);
    }
    assert(unit * m == g * (sb * m)) by (nonlinear_arith)
        requires
            unit == sb * g,
    ;
    assert(unit * (m + 1) == g * (sb * m + sb)) by (nonlinear_arith)
        requires
            unit == sb * g,
    ;
    assert(g * (sb * m) <= g * top) by (nonlinear_arith)
        requires
            sb * m <= top,
    ;
    assert(g * top < g * (sb * m + sb)) by (nonlinear_arith)
        requires
            top < sb * m + sb,
            g > 0,
    ;
    lemma_cancel(sb * m, top, g);
}

/// Some bit pattern is nearest: found downwards from a pattern that is not too small.
proof fn lemma_nearest_exists(num: nat, den: nat, rest: nat)
    requires
        den > 0,
        rest <= INF_REST,
        rest < INF_REST ==> {
            let mid = den * (f32_mag(rest) + f32_mag(rest + 1));
            2 * num < mid || (2 * num == mid && rest % 2 == 0)
        },
    ensures
        exists|r: nat| rounds_to(num, den, r),
    decreases rest,
{
    if rest > 0 {
        let mid = den * (f32_mag((rest - 1) as nat) + f32_mag(rest));
        if 2 * num > mid || (2 * num == mid && rest % 2 == 0) {
            assert(rounds_to(num, den, rest));
        } else {
            lemma_nearest_exists(num, den, (rest - 1) as nat);
        }
    } else {
        assert(rounds_to(num, den, rest));
    }
}

/// Rounding goes to the nearest number: of all bit patterns up to infinity, which counts
/// as `2^128`, none lies closer to `num / den`, and of two that lie equally close the even
/// one is taken.
pub proof fn law_rounding_is_nearest(num: nat, den: nat, other: nat)
    requires
        den > 0,
        other <= INF_REST,
    ensures
        ({
            let rest = nearest_rest(num, den);
            let near = num - den * f32_mag(rest);
            let far = num - den * f32_mag(other);
            &&& rest <= INF_REST
            &&& -near <= far || -near <= -far
            &&& near <= far || near <= -far
            &&& other != rest && (near == far || near == -far) ==> rest % 2 == 0
        }),
{
    lemma_nearest_exists(num, den, INF_REST as nat);
    let rest = nearest_rest(num, den);
    assert(rounds_to(num, den, rest));
    let b = f32_mag(rest);
    let c = f32_mag(other);
    if other < rest {
        let a = f32_mag((rest - 1) as nat);
        if other < rest - 1 {
            lemma_mag_increases(other, (rest - 1) as nat);
        }
        lemma_mag_step((rest - 1) as nat);
        assert(den * (a + b) == den * a + den * b && den * c <= den * a && den * a < den * b)
            by (nonlinear_arith)
            requires
                c <= a < b,
                den > 0,
        ;
    } else if other > rest {
        let a = f32_mag(rest + 1);
        if rest + 1 < other {
            lemma_mag_increases(rest + 1, other);
        }
        lemma_mag_step(rest);
        assert(den * (b + a) == den * a + den * b && den * c >= den * a && den * a > den * b)
            by (nonlinear_arith)
            requires
                c >= a > b,
                den > 0,
        ;
    }
}

/// Magnitudes are binary: below the first exponent the bits count units, and from there on
/// every exponent doubles the magnitude.
pub proof fn law_magnitudes_are_binary(rest: nat)
    ensures
        rest <= 0x80_0000 ==> f32_mag(rest) == rest,
        rest >= 0x80_0000 ==> f32_mag(rest + 0x80_0000) == 2 * f32_mag(rest),
{
    lemma2_to64();
    let exp = rest / 0x80_0000;
    let man = rest % 0x80_0000;
    if rest == 0x80_0000 {
        assert(exp == 1 && man == 0);
        assert((0x80_0000 + man) * pow2(0) == 0x80_0000);
    }
    if rest >= 0x80_0000 {
        assert((rest + 0x80_0000) / 0x80_0000 == exp + 1 && (rest + 0x80_0000) % 0x80_0000 == man);
        lemma_pow2_unfold(exp);
        let p = pow2((exp - 1) as nat);
        assert((0x80_0000 + man) * (2 * p) == 2 * ((0x80_0000 + man) * p)) by (nonlinear_arith);
    }
}

/// A product of finite numbers has the sign of the two and is the nearest number to their
/// exact product: no other bit pattern lies closer.
pub proof fn law_product_is_nearest(a: F32, b: F32, other: nat)
    requires
        a.is_finite(),
        b.is_finite(),
        other <= INF_REST,
    ensures
        ({
            let out = a.product(b);
            let exact = a.mag() * b.mag();
            let near = exact - pow2(149) * out.mag();
            let far = exact - pow2(149) * f32_mag(other);
            &&& !out.is_nan()
            &&& out.neg() == (a.neg() != b.neg())
            &&& -near <= far || -near <= -far
            &&& near <= far || near <= -far
        }),
{
    lemma_pow2_pos(149);
    law_rounding_is_nearest(a.mag() * b.mag(), pow2(149), other);
    lemma_pack(a.neg() != b.neg(), nearest_rest(a.mag() * b.mag(), pow2(149)));
}

/// A quotient of finite numbers has the sign of the two and is the nearest number to their
/// exact quotient.
pub proof fn law_quotient_is_nearest(a: F32, b: F32, other: nat)
    requires
        a.is_finite(),
        b.is_finite(),
        b.mag() > 0,
        other <= INF_REST,
    ensures
        ({
            let out = a.quotient(b);
            let exact = a.mag() * pow2(149);
            let near = exact - b.mag() * out.mag();
            let far = exact - b.mag() * f32_mag(other);
            &&& !out.is_nan()
            &&& out.neg() == (a.neg() != b.neg())
            &&& -near <= far || -near <= -far
            &&& near <= far || near <= -far
        }),
{
    law_rounding_is_nearest(a.mag() * pow2(149), b.mag(), other);
    lemma_pack(a.neg() != b.neg(), nearest_rest(a.mag() * pow2(149), b.mag()));
}

/// A NaN goes through a product and a quotient, zero times infinity is one, and anything
/// else times infinity is infinite.
pub proof fn law_special_numbers(a: F32, b: F32)
    ensures
        a.is_nan() || b.is_nan() ==> a.product(b).is_nan() && a.quotient(b).is_nan(),
        a.is_inf() && b.rest() == 0 ==> a.product(b).is_nan() && b.product(a).is_nan(),
        a.is_inf() && b.rest() > 0 && !b.is_nan() ==> a.product(b).is_inf() && b.product(
            a,
        ).is_inf(),
        a.is_inf() && b.is_inf() ==> a.quotient(b).is_nan(),
        a.is_inf() && b.is_finite() ==> a.quotient(b).is_inf(),
        a.is_finite() && b.is_inf() ==> a.quotient(b).rest() == 0,
        a.is_finite() && a.rest() > 0 && b.rest() == 0 ==> a.quotient(b).is_inf(),
        a.rest() == 0 && b.rest() == 0 ==> a.quotient(b).is_nan(),
{
    lemma_mag_zero(a.rest());
    lemma_mag_zero(b.rest());
    lemma_pack(a.neg() != b.neg(), INF_REST as nat);
    lemma_pack(b.neg() != a.neg(), INF_REST as nat);
    lemma_pack(a.neg() != b.neg(), 0);
}

} // verus!
