//! The narrow number formats of quantized checkpoints: FP8 E4M3, FP4 E2M1 and
//! the E8M0 power-of-two scale.

use vstd::arithmetic::power2::{
    lemma2_to64, lemma_pow2_adds, lemma_pow2_pos, lemma_pow2_strictly_increases, pow2,
};
use vstd::bits::lemma_u64_shl_is_mul;
use vstd::prelude::*;

use crate::float::{
    f32_mag, f32_of, lemma_exact, lemma_mag_increases, lemma_mag_of_parts, F32, INF_REST, MAN_SIZE,
};

verus! {

/// The magnitude, in units of `2^-9`, of the E4M3 byte with magnitude bits
/// `m < 128`: exponent bias 7, and subnormals at exponent zero.
pub open spec fn fp8_mag(m: nat) -> nat {
    if m / 8 == 0 {
        m % 8
    } else {
        (8 + m % 8) * pow2((m / 8 - 1) as nat)
    }
}

/// Both bytes whose magnitude bits are all ones are NaN; E4M3 has no infinity.
pub open spec fn fp8_is_nan(b: u8) -> bool {
    b % 128 == 127
}

/// The signed value of a byte in units of `2^-9`.
pub open spec fn fp8_value(b: u8) -> int {
    if b >= 128 {
        -(fp8_mag((b % 128) as nat) as int)
    } else {
        fp8_mag((b % 128) as nat) as int
    }
}

/// The single-precision number that an E4M3 byte stands for.
pub open spec fn fp8_f32(b: u8) -> F32 {
    if fp8_is_nan(b) {
        F32::spec_nan()
    } else {
        f32_of(b >= 128, fp8_mag((b % 128) as nat) * pow2(140))
    }
}

/// The single-precision number `2^(b - 127)`; at `b == 255` that is infinity.
pub open spec fn e8m0_f32(b: u8) -> F32 {
    f32_of(false, pow2((b + 22) as nat))
}

/// Magnitude of an E8M0 scale: `2^(b - 127)` in units of `2^-149`.
proof fn lemma_e8m0_mag(b: nat)
    requires
        b <= 255,
    ensures
        b == 0 ==> f32_mag(0x40_0000) == pow2(22),
        b > 0 ==> f32_mag(b * 0x80_0000) == pow2((b + 22) as nat),
{
    lemma2_to64();
    if b == 0 {
        assert(0x40_0000nat / 0x80_0000 == 0 && 0x40_0000nat % 0x80_0000 == 0x40_0000);
    } else {
        assert((b * 0x80_0000) / 0x80_0000 == b && (b * 0x80_0000) % 0x80_0000 == 0);
        lemma_pow2_adds(23, (b - 1) as nat);
        assert(pow2(23) == 0x80_0000);
    }
}

/// FP8 E8M0 (ue8m0) scale byte to single precision: `2^(b - 127)`.
pub fn e8m0_to_f32(b: u8) -> (r: F32)
    ensures
        r == e8m0_f32(b),
        !r.neg(),
        r.mag() == pow2((b + 22) as nat),
        r.is_inf() <==> b == 255,
        r.is_finite() <==> b != 255,
{
    let rest: u32 = if b == 0 {
        0x40_0000
    } else {
        (b as u32) * MAN_SIZE
    };
    proof {
        lemma_e8m0_mag(b as nat);
        lemma_exact(false, rest as nat);
    }
    F32 { bits: rest }
}

/// FP8 E4M3 byte to single precision: sign(1) exponent(4) significand(3), bias 7.
///
/// `(-1)^s * 2^(e-7) * (1 + m/8)` for `e` in `1..=15`, `(-1)^s * 2^-6 * m/8` for
/// `e == 0`, and NaN for `e == 15, m == 7`.
pub fn fp8_e4m3_to_f32(b: u8) -> (r: F32)
    ensures
        r == fp8_f32(b),
        fp8_is_nan(b) <==> r.is_nan(),
        !fp8_is_nan(b) ==> r.is_finite() && r.value() == fp8_value(b) * pow2(140),
        !fp8_is_nan(b) ==> r.neg() == (b >= 128) && r.mag() == fp8_mag((b % 128) as nat) * pow2(
            140,
        ),
{
    let m: u8 = b % 128;
    if m == 127 {
        return F32 { bits: 0x7FC0_0000 };
    }
    let exp: u32 = (m / 8) as u32;
    let man: u32 = (m % 8) as u32;
    let (kept, x): (u32, u32) = if exp > 0 {
        ((8 + man) * 0x10_0000, exp + 119)
    } else if man >= 4 {
        (man * 0x20_0000, 119)
    } else if man >= 2 {
        (man * 0x40_0000, 118)
    } else if man == 1 {
        (0x80_0000, 117)
    } else {
        (0, 0)
    };
    proof {
        lemma_fp8_parts(m as nat, kept as nat, x as nat);
        lemma_mag_of_parts(kept as nat, x as nat);
        assert(x * 0x80_0000 + kept < INF_REST);
        lemma_exact(b >= 128, (x * 0x80_0000 + kept) as nat);
        assert(fp8_value(b) * pow2(140) == if b >= 128 {
            -(fp8_mag(m as nat) * pow2(140))
        } else {
            (fp8_mag(m as nat) * pow2(140)) as int
        }) by (nonlinear_arith)
            requires
                fp8_value(b) == if b >= 128 {
                    -(fp8_mag(m as nat) as int)
                } else {
                    fp8_mag(m as nat) as int
                },
        ;
    }
    F32::from_parts(b >= 128, x * MAN_SIZE + kept)
}

/// The normalised parts of an E4M3 magnitude.
proof fn lemma_fp8_parts(m: nat, kept: nat, x: nat)
    requires
        m < 127,
        m / 8 > 0 ==> kept == (8 + m % 8) * 0x10_0000 && x == m / 8 + 119,
        m / 8 == 0 && m % 8 >= 4 ==> kept == (m % 8) * 0x20_0000 && x == 119,
        m / 8 == 0 && 2 <= m % 8 < 4 ==> kept == (m % 8) * 0x40_0000 && x == 118,
        m / 8 == 0 && m % 8 == 1 ==> kept == 0x80_0000 && x == 117,
        m == 0 ==> kept == 0 && x == 0,
    ensures
        kept * pow2(x) == fp8_mag(m) * pow2(140),
{
    lemma2_to64();
    assert(pow2(20) == 0x10_0000 && pow2(21) == 0x20_0000 && pow2(22) == 0x40_0000 && pow2(23)
        == 0x80_0000);
    let man = m % 8;
    if m / 8 > 0 {
        let e = m / 8;
        lemma_pow2_adds(20, x);
        lemma_pow2_adds((e - 1) as nat, 140);
        let px = pow2(x);
        let pe = pow2((e - 1) as nat);
        let p140 = pow2(140);
        assert(0x10_0000 * px == pe * p140);
        assert(((8 + man) * 0x10_0000) * px == ((8 + man) * pe) * p140) by (nonlinear_arith)
            requires
                0x10_0000 * px == pe * p140,
        ;
    } else if man >= 4 {
        lemma_pow2_adds(21, 119);
        let px = pow2(119);
        assert((man * 0x20_0000) * px == man * (0x20_0000 * px)) by (nonlinear_arith);
    } else if man >= 2 {
        lemma_pow2_adds(22, 118);
        let px = pow2(118);
        assert((man * 0x40_0000) * px == man * (0x40_0000 * px)) by (nonlinear_arith);
    } else if man == 1 {
        lemma_pow2_adds(23, 117);
        assert(fp8_mag(m) == 1);
        assert(fp8_mag(m) * pow2(140) == pow2(140)) by (nonlinear_arith)
            requires
                fp8_mag(m) == 1,
        ;
    } else {
        assert(m == 0);
        assert(fp8_mag(m) * pow2(140) == 0) by (nonlinear_arith)
            requires
                fp8_mag(m) == 0,
        ;
        assert(0 * pow2(0) == 0);
    }
}

/// The magnitude, in halves, of the E2M1 nibble with magnitude bits `m < 8`:
/// exponent bias 1, subnormals at exponent zero, every pattern finite.
pub open spec fn fp4_mag(m: nat) -> nat {
    if m / 2 == 0 {
        m % 2
    } else {
        (2 + m % 2) * pow2((m / 2 - 1) as nat)
    }
}

/// The single-precision number that an E2M1 nibble stands for. Bits above the
/// low four are ignored.
pub open spec fn fp4_f32(nib: u8) -> F32 {
    f32_of(nib % 16 >= 8, fp4_mag((nib % 8) as nat) * pow2(148))
}

/// The same nibble read with the top exponent reserved: infinity at `m == 0`,
/// NaN at `m == 1`.
pub open spec fn fp4_reserved_f32(nib: u8) -> F32 {
    if nib % 8 == 6 {
        F32::pack(nib % 16 >= 8, INF_REST as nat)
    } else if nib % 8 == 7 {
        F32::spec_nan()
    } else {
        fp4_f32(nib)
    }
}

/// Element `p` of a packed array, two nibbles to a byte, low nibble first.
pub open spec fn nibble_at(packed: Seq<u8>, p: int) -> u8 {
    if p % 2 == 0 {
        packed[p / 2] % 16
    } else {
        packed[p / 2] / 16
    }
}

/// Reads one nibble of a packed array.
pub fn nibble(packed: &[u8], p: usize) -> (r: u8)
    requires
        p / 2 < packed@.len(),
    ensures
        r == nibble_at(packed@, p as int),
        r < 16,
{
    if p % 2 == 0 {
        packed[p / 2] % 16
    } else {
        packed[p / 2] / 16
    }
}

/// FP4 E2M1 nibble to single precision, with a finite top exponent: the values
/// are `0, 0.5, 1, 1.5, 2, 3, 4, 6` and their negations.
pub fn fp4_e2m1_to_f32(nib: u8) -> (r: F32)
    ensures
        r == fp4_f32(nib),
        r.is_finite(),
        r.neg() == (nib % 16 >= 8),
        r.mag() == fp4_mag((nib % 8) as nat) * pow2(148),
{
    let m: u8 = nib % 8;
    let exp: u32 = (m / 2) as u32;
    let man: u32 = (m % 2) as u32;
    let (kept, x): (u32, u32) = if exp > 0 {
        ((2 + man) * 0x40_0000, exp + 125)
    } else if man == 1 {
        (0x80_0000, 125)
    } else {
        (0, 0)
    };
    let neg: bool = nib % 16 >= 8;
    proof {
        lemma_fp4_parts(m as nat, kept as nat, x as nat);
        lemma_mag_of_parts(kept as nat, x as nat);
        assert(x * 0x80_0000 + kept < INF_REST);
        lemma_exact(neg, (x * 0x80_0000 + kept) as nat);
    }
    F32::from_parts(neg, x * MAN_SIZE + kept)
}

/// FP4 E2M1 nibble to single precision, with the top exponent reserved for
/// infinity and NaN.
pub fn fp4_e2m1_reserved_to_f32(nib: u8) -> (r: F32)
    ensures
        r == fp4_reserved_f32(nib),
        r.is_nan() <==> nib % 8 == 7,
        r.is_inf() <==> nib % 8 == 6,
        nib % 8 < 6 ==> r.is_finite() && r.mag() == fp4_mag((nib % 8) as nat) * pow2(148),
        nib % 8 < 7 ==> r.neg() == (nib % 16 >= 8),
{
    if nib % 8 == 6 {
        F32::from_parts(nib % 16 >= 8, INF_REST)
    } else if nib % 8 == 7 {
        F32 { bits: 0x7FC0_0000 }
    } else {
        fp4_e2m1_to_f32(nib)
    }
}

/// The normalised parts of an E2M1 magnitude.
proof fn lemma_fp4_parts(m: nat, kept: nat, x: nat)
    requires
        m < 8,
        m / 2 > 0 ==> kept == (2 + m % 2) * 0x40_0000 && x == m / 2 + 125,
        m == 1 ==> kept == 0x80_0000 && x == 125,
        m == 0 ==> kept == 0 && x == 0,
    ensures
        kept * pow2(x) == fp4_mag(m) * pow2(148),
{
    lemma2_to64();
    assert(pow2(22) == 0x40_0000 && pow2(23) == 0x80_0000);
    let man = m % 2;
    if m / 2 > 0 {
        let e = m / 2;
        lemma_pow2_adds(22, x);
        lemma_pow2_adds((e - 1) as nat, 148);
        let px = pow2(x);
        let pe = pow2((e - 1) as nat);
        let p148 = pow2(148);
        assert(0x40_0000 * px == pe * p148);
        assert(((2 + man) * 0x40_0000) * px == ((2 + man) * pe) * p148) by (nonlinear_arith)
            requires
                0x40_0000 * px == pe * p148,
        ;
    } else if m == 1 {
        lemma_pow2_adds(23, 125);
        assert(fp4_mag(m) * pow2(148) == pow2(148)) by (nonlinear_arith)
            requires
                fp4_mag(m) == 1,
        ;
    } else {
        assert(fp4_mag(m) * pow2(148) == 0) by (nonlinear_arith)
            requires
                fp4_mag(m) == 0,
        ;
        assert(0 * pow2(0) == 0);
    }
}

/// The value of a byte that is not NaN.
pub proof fn lemma_fp8_value(b: u8)
    requires
        !fp8_is_nan(b),
    ensures
        fp8_f32(b).is_finite(),
        fp8_f32(b).neg() == (b >= 128),
        fp8_f32(b).mag() == fp8_mag((b % 128) as nat) * pow2(140),
{
    let rest = lemma_fp8_is_f32((b % 128) as nat);
    lemma_exact(b >= 128, rest);
}

/// The value of a nibble.
pub proof fn lemma_fp4_value(nib: u8)
    ensures
        fp4_f32(nib).is_finite(),
        fp4_f32(nib).neg() == (nib % 16 >= 8),
        fp4_f32(nib).mag() == fp4_mag((nib % 8) as nat) * pow2(148),
{
    let m = (nib % 8) as nat;
    let (kept, x): (nat, nat) = if m / 2 > 0 {
        ((2 + m % 2) * 0x40_0000, m / 2 + 125)
    } else if m == 1 {
        (0x80_0000, 125)
    } else {
        (0, 0)
    };
    lemma_fp4_parts(m, kept, x);
    lemma_mag_of_parts(kept, x);
    lemma_exact(nib % 16 >= 8, (x * 0x80_0000 + kept) as nat);
}

/// The value of a scale.
pub proof fn lemma_e8m0_value(b: u8)
    ensures
        e8m0_f32(b).mag() == pow2((b + 22) as nat),
        !e8m0_f32(b).neg(),
        e8m0_f32(b).is_finite() <==> b != 255,
        e8m0_f32(b).is_inf() <==> b == 255,
{
    let rest: nat = if b == 0 {
        0x40_0000
    } else {
        (b * 0x80_0000) as nat
    };
    lemma_e8m0_mag(b as nat);
    lemma_exact(false, rest);
}

/// Distance between two integers.
pub open spec fn dist(a: int, b: int) -> int {
    if a >= b {
        a - b
    } else {
        b - a
    }
}

/// `m` is the first of the finite E4M3 magnitudes nearest to `num / den` units of
/// `2^-9`.
pub open spec fn is_nearest_fp8_mag(num: nat, den: nat, m: nat) -> bool {
    &&& m <= 126
    &&& forall|c: nat|
        c <= 126 ==> dist(num as int, (den * fp8_mag(m)) as int) <= dist(
            num as int,
            (den * #[trigger] fp8_mag(c)) as int,
        )
    &&& forall|c: nat|
        c < m ==> dist(num as int, (den * fp8_mag(m)) as int) < dist(
            num as int,
            (den * #[trigger] fp8_mag(c)) as int,
        )
}

/// The magnitude bits nearest to `num / den` units of `2^-9`.
pub open spec fn nearest_fp8_mag(num: nat, den: nat) -> nat {
    choose|m: nat| is_nearest_fp8_mag(num, den, m)
}

/// At most one magnitude is the first nearest one.
pub proof fn lemma_nearest_fp8_mag(num: nat, den: nat, m: nat)
    requires
        is_nearest_fp8_mag(num, den, m),
    ensures
        nearest_fp8_mag(num, den) == m,
{
    let n = nearest_fp8_mag(num, den);
    assert(is_nearest_fp8_mag(num, den, n));
    let fm = fp8_mag(m);
    let fnn = fp8_mag(n);
}

/// E4M3 magnitudes grow strictly with the bits.
pub proof fn lemma_fp8_mag_step(m: nat)
    ensures
        fp8_mag(m) < fp8_mag(m + 1),
{
    let e = m / 8;
    let man = m % 8;
    lemma2_to64();
    if e > 0 {
        let p = pow2((e - 1) as nat);
        lemma_pow2_pos((e - 1) as nat);
        if man < 7 {
            assert((m + 1) / 8 == e && (m + 1) % 8 == man + 1);
            assert((8 + (man + 1)) * p > (8 + man) * p) by (nonlinear_arith)
                requires
                    p > 0,
            ;
        } else {
            assert((m + 1) / 8 == e + 1 && (m + 1) % 8 == 0);
            vstd::arithmetic::power2::lemma_pow2_unfold(e);
            assert(8 * (2 * p) > 15 * p) by (nonlinear_arith)
                requires
                    p > 0,
            ;
        }
    } else if man < 7 {
        assert((m + 1) / 8 == 0 && (m + 1) % 8 == man + 1);
    } else {
        let one = pow2(0);
        assert(one == 1);
        assert(m + 1 == 8);
        assert(fp8_mag(8) == (8 + 0) * one);
    }
}

pub proof fn lemma_fp8_mag_increases(a: nat, b: nat)
    requires
        a < b,
    ensures
        fp8_mag(a) < fp8_mag(b),
    decreases b - a,
{
    lemma_fp8_mag_step((b - 1) as nat);
    if a < b - 1 {
        lemma_fp8_mag_increases(a, (b - 1) as nat);
    }
}

/// A value on the grid is its own nearest magnitude.
pub proof fn lemma_nearest_on_grid(num: nat, den: nat, m: nat)
    requires
        den > 0,
        m <= 126,
        num == den * fp8_mag(m),
    ensures
        is_nearest_fp8_mag(num, den, m),
        nearest_fp8_mag(num, den) == m,
{
    assert forall|c: nat| c < m implies dist(num as int, (den * fp8_mag(m)) as int) < dist(
        num as int,
        (den * #[trigger] fp8_mag(c)) as int,
    ) by {
        lemma_fp8_mag_increases(c, m);
        assert(den * fp8_mag(c) < den * fp8_mag(m)) by (nonlinear_arith)
            requires
                fp8_mag(c) < fp8_mag(m),
                den > 0,
        ;
    }
    lemma_nearest_fp8_mag(num, den, m);
}

/// Every finite E4M3 magnitude is a single-precision magnitude.
pub proof fn lemma_fp8_is_f32(m: nat) -> (rest: nat)
    requires
        m <= 126,
    ensures
        rest < INF_REST,
        f32_mag(rest) == fp8_mag(m) * pow2(140),
{
    let man = m % 8;
    let (kept, x): (nat, nat) = if m / 8 > 0 {
        ((8 + man) * 0x10_0000, m / 8 + 119)
    } else if man >= 4 {
        (man * 0x20_0000, 119)
    } else if man >= 2 {
        (man * 0x40_0000, 118)
    } else if man == 1 {
        (0x80_0000, 117)
    } else {
        (0, 0)
    };
    lemma_fp8_parts(m, kept, x);
    lemma_mag_of_parts(kept, x);
    (x * 0x80_0000 + kept) as nat
}

/// Whatever reaches the largest finite magnitude saturates there.
pub proof fn lemma_nearest_saturates(num: nat, den: nat)
    requires
        den > 0,
        num >= den * fp8_mag(126),
    ensures
        is_nearest_fp8_mag(num, den, 126),
        nearest_fp8_mag(num, den) == 126,
{
    assert forall|c: nat| c < 126 implies den * #[trigger] fp8_mag(c) < den * fp8_mag(126) by {
        lemma_fp8_mag_increases(c, 126);
        assert(den * fp8_mag(c) < den * fp8_mag(126)) by (nonlinear_arith)
            requires
                fp8_mag(c) < fp8_mag(126),
                den > 0,
        ;
    }
    lemma_nearest_fp8_mag(num, den, 126);
}

/// Whatever is at most half the smallest magnitude goes to zero.
pub proof fn lemma_nearest_zero(num: nat, den: nat)
    requires
        2 * num <= den,
    ensures
        is_nearest_fp8_mag(num, den, 0),
        nearest_fp8_mag(num, den) == 0,
{
    assert(fp8_mag(0) == 0);
    assert(den * fp8_mag(0) == 0) by (nonlinear_arith)
        requires
            fp8_mag(0) == 0,
    ;
    assert forall|c: nat| c <= 126 implies dist(num as int, (den * fp8_mag(0)) as int) <= dist(
        num as int,
        (den * #[trigger] fp8_mag(c)) as int,
    ) by {
        if c > 0 {
            lemma_fp8_mag_increases(0, c);
            assert(den * fp8_mag(c) >= den) by (nonlinear_arith)
                requires
                    fp8_mag(c) >= 1,
            ;
        }
    }
    lemma_nearest_fp8_mag(num, den, 0);
}

/// A common factor does not move the nearest magnitude.
pub proof fn lemma_nearest_scales(num: nat, den: nat, k: nat, m: nat)
    requires
        k > 0,
        is_nearest_fp8_mag(num, den, m),
    ensures
        is_nearest_fp8_mag(num * k, den * k, m),
{
    assert forall|c: nat| dist((num * k) as int, ((den * k) * #[trigger] fp8_mag(c)) as int) == k
        * dist(num as int, (den * fp8_mag(c)) as int) by {
        let f = fp8_mag(c);
        assert((den * k) * f == k * (den * f)) by (nonlinear_arith);
        let a = num as int;
        let b = (den * f) as int;
        assert(k * a - k * b == k * (a - b)) by (nonlinear_arith);
        assert(k * b - k * a == k * (b - a)) by (nonlinear_arith);
        assert(num * k == k * a) by (nonlinear_arith)
            requires
                a == num as int,
        ;
        assert(a >= b ==> k * a >= k * b) by (nonlinear_arith);
        assert(a < b ==> k * a < k * b) by (nonlinear_arith)
            requires
                k > 0,
        ;
    }
    let best = dist(num as int, (den * fp8_mag(m)) as int);
    assert forall|c: nat| c <= 126 implies dist(
        (num * k) as int,
        ((den * k) * fp8_mag(m)) as int,
    ) <= dist((num * k) as int, ((den * k) * #[trigger] fp8_mag(c)) as int) by {
        let d = dist(num as int, (den * fp8_mag(c)) as int);
        assert(best <= d);
        assert(k * best <= k * d) by (nonlinear_arith)
            requires
                best <= d,
        ;
    }
    assert forall|c: nat| c < m implies dist((num * k) as int, ((den * k) * fp8_mag(m)) as int)
        < dist((num * k) as int, ((den * k) * #[trigger] fp8_mag(c)) as int) by {
        let d = dist(num as int, (den * fp8_mag(c)) as int);
        assert(best < d);
        assert(k * best < k * d) by (nonlinear_arith)
            requires
                best < d,
                k > 0,
        ;
    }
}

/// The largest finite magnitude is 448, and every magnitude fits in 18 bits.
pub proof fn lemma_fp8_max()
    ensures
        fp8_mag(126) == 229376,
        forall|c: nat| c <= 126 ==> #[trigger] fp8_mag(c) <= 229376,
{
    lemma2_to64();
    assert(pow2(14) == 16384);
    assert(126nat / 8 == 15 && 126nat % 8 == 6);
    assert(fp8_mag(126) == 14 * pow2(14));
    assert forall|c: nat| c <= 126 implies #[trigger] fp8_mag(c) <= 229376 by {
        if c < 126 {
            lemma_fp8_mag_increases(c, 126);
        }
    }
}

/// The magnitude of an E4M3 byte in units of `2^-9`.
pub fn fp8_magnitude(m: u8) -> (r: u64)
    requires
        m < 128,
    ensures
        r == fp8_mag(m as nat),
        m <= 126 ==> r <= 229376,
{
    proof {
        lemma_fp8_max();
    }
    if m / 8 == 0 {
        (m % 8) as u64
    } else {
        let e: u64 = (m / 8 - 1) as u64;
        let s: u64 = (8 + m % 8) as u64;
        proof {
            lemma2_to64();
            if e < 14 {
                lemma_pow2_strictly_increases(e as nat, 14);
            }
            assert(s * pow2(e as nat) <= 15 * 16384) by (nonlinear_arith)
                requires
                    s <= 15,
                    pow2(e as nat) <= 16384,
            ;
            lemma_u64_shl_is_mul(s, e);
        }
        s << e
    }
}

/// The first finite E4M3 magnitude nearest to `num / 2^k` units of `2^-9`.
pub fn nearest_magnitude(num: u64, k: u64) -> (r: u8)
    requires
        num < 0x1000_0000_0000,
        k <= 24,
    ensures
        is_nearest_fp8_mag(num as nat, pow2(k as nat), r as nat),
        r == nearest_fp8_mag(num as nat, pow2(k as nat)),
{
    let ghost den: nat = pow2(k as nat);
    proof {
        lemma2_to64();
        if k < 24 {
            lemma_pow2_strictly_increases(k as nat, 24);
        }
        lemma_pow2_pos(k as nat);
        lemma_u64_shl_is_mul(1, k);
    }
    let step: u64 = 1u64 << k;
    let mut best: u8 = 0;
    let mut best_d: u64 = num;
    let mut c: u8 = 1;
    proof {
        assert(fp8_mag(0) == 0);
        assert(den * fp8_mag(0) == 0) by (nonlinear_arith)
            requires
                fp8_mag(0) == 0,
        ;
    }
    while c < 127
        invariant
            1 <= c <= 127,
            best < c,
            num < 0x1000_0000_0000,
            step == den,
            den <= 0x100_0000,
            best_d == dist(num as int, (den * fp8_mag(best as nat)) as int),
            forall|a: nat|
                a < c ==> best_d <= dist(num as int, (den * #[trigger] fp8_mag(a)) as int),
            forall|a: nat|
                a < best ==> best_d < dist(num as int, (den * #[trigger] fp8_mag(a)) as int),
        decreases 127 - c,
    {
        let f: u64 = fp8_magnitude(c);
        proof {
            assert(den * f <= 0x100_0000 * 229376) by (nonlinear_arith)
                requires
                    den <= 0x100_0000,
                    f <= 229376,
            ;
        }
        let x: u64 = step * f;
        let d: u64 = if num >= x {
            num - x
        } else {
            x - num
        };
        if d < best_d {
            best_d = d;
            best = c;
        }
        c = c + 1;
    }
    proof {
        lemma_nearest_fp8_mag(num as nat, den, best as nat);
    }
    best
}

/// `b` is the first of the finite E4M3 bytes nearest to the number `v`.
pub open spec fn is_nearest_fp8(v: F32, b: u8) -> bool {
    &&& !fp8_is_nan(b)
    &&& forall|c: u8|
        !fp8_is_nan(c) ==> dist(v.value(), fp8_value(b) * pow2(140)) <= dist(
            v.value(),
            #[trigger] fp8_value(c) * pow2(140),
        )
    &&& forall|c: u8|
        !fp8_is_nan(c) && c < b ==> dist(v.value(), fp8_value(b) * pow2(140)) < dist(
            v.value(),
            #[trigger] fp8_value(c) * pow2(140),
        )
}

/// The byte that a single-precision number rounds to: nearest, the lower byte on
/// a tie, infinities clamped to the largest finite byte, and zero for NaN.
pub open spec fn fp8_of(v: F32) -> u8 {
    if v.is_nan() {
        0
    } else if v.is_inf() {
        if v.neg() {
            0xFE
        } else {
            0x7E
        }
    } else {
        let m = nearest_fp8_mag(v.mag(), pow2(140));
        if v.neg() && m > 0 {
            (128 + m) as u8
        } else {
            m as u8
        }
    }
}

/// The nearest magnitude with the sign of the number is the nearest byte.
proof fn lemma_nearest_signed(v: F32, m: nat)
    requires
        is_nearest_fp8_mag(v.mag(), pow2(140), m),
    ensures
        is_nearest_fp8(
            v,
            if v.neg() && m > 0 {
                (128 + m) as u8
            } else {
                m as u8
            },
        ),
{
    let b: u8 = if v.neg() && m > 0 {
        (128 + m) as u8
    } else {
        m as u8
    };
    let p = pow2(140);
    let num = v.mag();
    lemma_pow2_pos(140);
    assert(fp8_mag(0) == 0);
    lemma_signed_distance(num, m, p, v.neg());
    lemma_signed_distance(num, 0, p, v.neg());
    if v.neg() && m == 0 {
        assert(fp8_value(b) == 0);
        assert(fp8_value(b) * p == 0) by (nonlinear_arith)
            requires
                fp8_value(b) == 0,
        ;
    }
    assert(dist(v.value(), fp8_value(b) * p) == dist(num as int, (p * fp8_mag(m)) as int));
    assert forall|c: u8| !fp8_is_nan(c) implies dist(v.value(), fp8_value(b) * p) <= dist(
        v.value(),
        #[trigger] fp8_value(c) * p,
    ) && (c < b ==> dist(v.value(), fp8_value(b) * p) < dist(v.value(), fp8_value(c) * p)) by {
        let mc = (c % 128) as nat;
        let f = fp8_mag(mc);
        assert(mc <= 126);
        lemma_signed_distance(num, mc, p, v.neg());
        assert(p * f >= 0) by (nonlinear_arith);
        assert(fp8_value(c) * p == if c >= 128 {
            -(p * f)
        } else {
            (p * f) as int
        }) by (nonlinear_arith)
            requires
                fp8_value(c) == if c >= 128 {
                    -(f as int)
                } else {
                    f as int
                },
        ;
        assert(dist(num as int, (p * fp8_mag(m)) as int) <= dist(
            num as int,
            (p * fp8_mag(mc)) as int,
        ));
        assert(dist(num as int, (p * fp8_mag(m)) as int) <= dist(num as int, (p * fp8_mag(0)) as int));
        assert(p * fp8_mag(0) == 0) by (nonlinear_arith)
            requires
                fp8_mag(0) == 0,
        ;
        if m > 0 {
            assert(dist(num as int, (p * fp8_mag(m)) as int) < dist(
                num as int,
                (p * fp8_mag(0)) as int,
            ));
        }
    }
}

/// A number on the fp8 grid rounds to itself.
pub proof fn lemma_fp8_of_grid(v: F32, c: nat)
    requires
        v.is_finite(),
        c <= 126,
        v.mag() == fp8_mag(c) * pow2(140),
    ensures
        fp8_of(v) % 128 == c,
        fp8_of(v) >= 128 <==> v.neg() && c > 0,
{
    lemma_pow2_pos(140);
    let p = pow2(140);
    assert(fp8_mag(c) * p == p * fp8_mag(c)) by (nonlinear_arith);
    lemma_nearest_on_grid(v.mag(), p, c);
}

/// Encoding gives back what was decoded; negative zero loses its sign.
pub proof fn law_fp8_round_trip(b: u8)
    requires
        !fp8_is_nan(b),
    ensures
        fp8_of(fp8_f32(b)) == if b == 0x80 {
            0
        } else {
            b
        },
{
    let c = (b % 128) as nat;
    lemma_fp8_value(b);
    lemma_fp8_of_grid(fp8_f32(b), c);
}

/// Distances on one side of zero are distances of magnitudes.
proof fn lemma_signed_distance(num: nat, m: nat, p: nat, neg: bool)
    ensures
        neg ==> dist(-(num as int), -(fp8_mag(m) as int) * p) == dist(
            num as int,
            (p * fp8_mag(m)) as int,
        ),
        !neg ==> dist(num as int, (fp8_mag(m) as int) * p) == dist(
            num as int,
            (p * fp8_mag(m)) as int,
        ),
{
    let f = fp8_mag(m) as int;
    assert(f * p == p * f) by (nonlinear_arith);
    assert((-f) * p == -(p * f)) by (nonlinear_arith);
}

/// Rounds a single-precision number to the nearest finite E4M3 byte.
pub fn f32_to_fp8(v: F32) -> (r: u8)
    ensures
        r == fp8_of(v),
        v.is_nan() ==> r == 0,
        v.is_inf() ==> r == if v.neg() { 0xFEu8 } else { 0x7Eu8 },
        v.is_finite() ==> is_nearest_fp8(v, r),
{
    let rest: u32 = v.magnitude_bits();
    if rest > INF_REST {
        return 0;
    }
    let m: u8 = if rest >= 0x43E0_0000 {
        proof {
            lemma_f32_grid();
            if rest > 0x43E0_0000 {
                lemma_mag_increases(0x43E0_0000, rest as nat);
            }
            lemma_nearest_saturates(f32_mag(rest as nat), pow2(140));
        }
        126
    } else if rest <= 0x3A80_0000 {
        proof {
            lemma_f32_grid();
            if rest < 0x3A80_0000 {
                lemma_mag_increases(rest as nat, 0x3A80_0000);
            }
            lemma_nearest_zero(f32_mag(rest as nat), pow2(140));
        }
        0
    } else {
        let shift: u64 = (rest / MAN_SIZE - 117) as u64;
        let sig: u64 = (MAN_SIZE + rest % MAN_SIZE) as u64;
        proof {
            lemma_fp8_scale(rest as nat, sig as nat, shift as nat);
            lemma_u64_shl_is_mul(sig, shift);
        }
        let num: u64 = sig << shift;
        let best: u8 = nearest_magnitude(num, 24);
        proof {
            lemma_pow2_pos(116);
            lemma_nearest_scales(num as nat, pow2(24), pow2(116), best as nat);
            lemma_pow2_adds(24, 116);
            lemma_nearest_fp8_mag(f32_mag(rest as nat), pow2(140), best as nat);
        }
        best
    };
    proof {
        if rest < INF_REST {
            lemma_nearest_signed(v, m as nat);
        }
    }
    if v.is_negative() && m > 0 {
        128 + m
    } else {
        m
    }
}

/// The thresholds 448 and `2^-10` on the single-precision grid.
proof fn lemma_f32_grid()
    ensures
        f32_mag(0x43E0_0000) == pow2(140) * fp8_mag(126),
        2 * f32_mag(0x3A80_0000) == pow2(140),
        pow2(140) > 0,
{
    lemma2_to64();
    lemma_fp8_max();
    lemma_pow2_pos(140);
    assert(0x43E0_0000nat / 0x80_0000 == 135 && 0x43E0_0000nat % 0x80_0000 == 0x60_0000);
    assert(f32_mag(0x43E0_0000) == 0xE0_0000 * pow2(134));
    lemma_pow2_adds(6, 134);
    assert(pow2(6) == 64);
    let p = pow2(134);
    assert((64 * p) * 229376 == 0xE0_0000 * p) by (nonlinear_arith);
    assert(0x3A80_0000nat / 0x80_0000 == 117 && 0x3A80_0000nat % 0x80_0000 == 0);
    lemma_pow2_adds(24, 116);
    assert(pow2(24) == 0x100_0000);
    assert(f32_mag(0x3A80_0000) == 0x80_0000 * pow2(116));
}

/// Between the thresholds a number is a whole count of `2^-33`.
proof fn lemma_fp8_scale(rest: nat, sig: nat, shift: nat)
    requires
        0x3A80_0000 < rest < 0x43E0_0000,
        shift == rest / 0x80_0000 - 117,
        sig == 0x80_0000 + rest % 0x80_0000,
    ensures
        shift <= 18,
        sig * pow2(shift) < 0x1000_0000_0000,
        f32_mag(rest) == (sig * pow2(shift)) * pow2(116),
{
    lemma2_to64();
    if shift < 18 {
        lemma_pow2_strictly_increases(shift, 18);
    }
    assert(pow2(18) == 0x4_0000);
    let p = pow2(shift);
    assert(sig * p < 0x100_0000 * 0x4_0000 + 1) by (nonlinear_arith)
        requires
            sig < 0x100_0000,
            p <= 0x4_0000,
    ;
    lemma_pow2_adds(shift, 116);
    let q = pow2(116);
    assert((sig * p) * q == sig * (p * q)) by (nonlinear_arith);
}

/// E4M3 magnitudes are binary: the first sixteen count units of `2^-9`, and from the
/// first exponent on every eight bits further double the magnitude. The top bit is the
/// sign, and only the two bytes with all other bits set are no number.
pub proof fn law_fp8_is_binary(b: u8)
    ensures
        b < 16 ==> fp8_value(b) == b,
        8 <= b < 120 ==> fp8_value((b + 8) as u8) == 2 * fp8_value(b),
        b < 128 ==> fp8_value((b + 128) as u8) == -fp8_value(b),
        fp8_is_nan(b) <==> b == 0x7F || b == 0xFF,
        fp8_f32(b).is_nan() <==> b == 0x7F || b == 0xFF,
        !fp8_is_nan(b) ==> fp8_f32(b).value() == fp8_value(b) * pow2(140),
{
    lemma2_to64();
    let m = (b % 128) as nat;
    if b < 16 {
        if b >= 8 {
            assert(m / 8 == 1);
            assert((8 + m % 8) * pow2(0) == m);
        }
    }
    if 8 <= b < 120 {
        let e = (m / 8 - 1) as nat;
        assert((m + 8) / 8 == m / 8 + 1 && (m + 8) % 8 == m % 8);
        lemma_pow2_adds(e, 1);
        let p = pow2(e);
        let s = 8 + m % 8;
        assert(s * (p * 2) == 2 * (s * p)) by (nonlinear_arith);
    }
    if b < 128 {
        let c: u8 = (b + 128) as u8;
        assert(c == b + 128 && c % 128 == b && c >= 128);
        assert(fp8_value(c) == -(fp8_mag(b as nat) as int));
        assert(fp8_value(b) == fp8_mag(b as nat) as int);
    }
    if !fp8_is_nan(b) {
        lemma_fp8_value(b);
        let f = fp8_mag(m) as int;
        let p = pow2(140) as int;
        assert((-f) * p == -(f * p)) by (nonlinear_arith);
    }
}

/// E2M1 magnitudes in units of one half are 0, 1, 2, 3, 4, 6, 8 and 12; the fourth bit is
/// the sign. With the top exponent reserved the last two are infinity and NaN.
pub proof fn law_fp4_is_binary(nib: u8)
    requires
        nib < 16,
    ensures
        nib % 8 < 4 ==> fp4_f32(nib).mag() == (nib % 8) * pow2(148),
        2 <= nib % 8 < 6 ==> fp4_f32((nib + 2) as u8).mag() == 2 * fp4_f32(nib).mag(),
        fp4_f32(nib).is_finite(),
        fp4_f32(nib).neg() == (nib >= 8),
        nib % 8 < 6 ==> fp4_reserved_f32(nib) == fp4_f32(nib),
        nib % 8 == 6 ==> fp4_reserved_f32(nib).is_inf() && fp4_reserved_f32(nib).neg() == (nib
            >= 8),
        nib % 8 == 7 ==> fp4_reserved_f32(nib).is_nan(),
{
    lemma2_to64();
    lemma_fp4_value(nib);
    let m = (nib % 8) as nat;
    if m == 2 || m == 3 {
        assert(m / 2 == 1);
        assert((2 + m % 2) * pow2(0) == m);
    }
    if 2 <= m < 6 {
        lemma_fp4_value((nib + 2) as u8);
        assert((nib + 2) % 8 == m + 2);
        let e = (m / 2 - 1) as nat;
        assert((m + 2) / 2 == m / 2 + 1 && (m + 2) % 2 == m % 2);
        lemma_pow2_adds(e, 1);
        let p = pow2(e);
        let s = 2 + m % 2;
        let q = pow2(148);
        assert((s * (p * 2)) * q == 2 * ((s * p) * q)) by (nonlinear_arith);
    }
}

/// A scale byte stands for a power of two: 127 is one, and every step doubles.
pub proof fn law_e8m0_is_power_of_two(b: u8)
    ensures
        e8m0_f32(127).mag() == pow2(149),
        b < 255 ==> e8m0_f32((b + 1) as u8).mag() == 2 * e8m0_f32(b).mag(),
        !e8m0_f32(b).neg(),
        e8m0_f32(b).is_inf() <==> b == 255,
{
    lemma2_to64();
    lemma_e8m0_value(127);
    lemma_e8m0_value(b);
    if b < 255 {
        lemma_e8m0_value((b + 1) as u8);
        lemma_pow2_adds((b + 22) as nat, 1);
    }
}

/// A packed byte holds two elements: the even one in its low half, the odd one behind it
/// in its high half.
pub proof fn law_nibbles_unpack(packed: Seq<u8>, k: int)
    requires
        0 <= k < packed.len(),
    ensures
        nibble_at(packed, 2 * k) < 16,
        nibble_at(packed, 2 * k + 1) < 16,
        nibble_at(packed, 2 * k) + 16 * nibble_at(packed, 2 * k + 1) == packed[k],
{
}

/// No finite byte lies closer to a number than the one it rounds to, and of two that lie
/// equally close the lower byte is taken.
pub proof fn law_fp8_rounding_is_nearest(v: F32, b: u8, c: u8)
    requires
        is_nearest_fp8(v, b),
        c != 0x7F,
        c != 0xFF,
    ensures
        b != 0x7F,
        b != 0xFF,
        ({
            let near = v.value() - fp8_value(b) * pow2(140);
            let far = v.value() - fp8_value(c) * pow2(140);
            &&& -near <= far || -near <= -far
            &&& near <= far || near <= -far
            &&& c < b ==> near != far && near != -far
        }),
{
    assert(!fp8_is_nan(c));
    assert(dist(v.value(), fp8_value(b) * pow2(140)) <= dist(
        v.value(),
        fp8_value(c) * pow2(140),
    ));
}

/// The first nearest of the magnitudes below `upto`.
pub proof fn lemma_nearest_among(num: nat, den: nat, upto: nat) -> (m: nat)
    requires
        0 < upto <= 127,
    ensures
        m < upto,
        forall|c: nat|
            c < upto ==> dist(num as int, (den * fp8_mag(m)) as int) <= dist(
                num as int,
                (den * #[trigger] fp8_mag(c)) as int,
            ),
        forall|c: nat|
            c < m ==> dist(num as int, (den * fp8_mag(m)) as int) < dist(
                num as int,
                (den * #[trigger] fp8_mag(c)) as int,
            ),
    decreases upto,
{
    if upto == 1 {
        0
    } else {
        let m = lemma_nearest_among(num, den, (upto - 1) as nat);
        let last = (upto - 1) as nat;
        if dist(num as int, (den * fp8_mag(last)) as int) < dist(
            num as int,
            (den * fp8_mag(m)) as int,
        ) {
            last
        } else {
            m
        }
    }
}

/// Encoding goes to the nearest finite byte: none lies closer to the number, and of two
/// that lie equally close the lower one is taken.
pub proof fn law_fp8_of_is_nearest(v: F32, c: u8)
    requires
        v.is_finite(),
        c != 0x7F,
        c != 0xFF,
    ensures
        fp8_of(v) != 0x7F,
        fp8_of(v) != 0xFF,
        ({
            let near = v.value() - fp8_value(fp8_of(v)) * pow2(140);
            let far = v.value() - fp8_value(c) * pow2(140);
            &&& -near <= far || -near <= -far
            &&& near <= far || near <= -far
            &&& c < fp8_of(v) ==> near != far && near != -far
        }),
{
    let m = lemma_nearest_among(v.mag(), pow2(140), 127);
    assert(is_nearest_fp8_mag(v.mag(), pow2(140), m));
    lemma_nearest_fp8_mag(v.mag(), pow2(140), m);
    lemma_nearest_signed(v, m);
    law_fp8_rounding_is_nearest(v, fp8_of(v), c);
}

/// What cannot be encoded: infinities become the largest finite byte of their sign, and NaN
/// becomes zero. Numbers keep their sign unless they become zero.
pub proof fn law_fp8_of_special_numbers(v: F32)
    ensures
        v.is_nan() ==> fp8_of(v) == 0,
        v.is_inf() ==> fp8_of(v) == if v.neg() {
            0xFEu8
        } else {
            0x7Eu8
        },
        v.is_finite() && fp8_of(v) != 0 ==> (fp8_of(v) >= 128 <==> v.neg()),
{
    if v.is_finite() {
        let m = lemma_nearest_among(v.mag(), pow2(140), 127);
        assert(is_nearest_fp8_mag(v.mag(), pow2(140), m));
        lemma_nearest_fp8_mag(v.mag(), pow2(140), m);
    }
}

} // verus!
