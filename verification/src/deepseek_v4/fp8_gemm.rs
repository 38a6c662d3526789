//! Weight and activation preparation for fp8 x fp8 matrix products.
//!
//! The tensor cores take scalar-scaled fp8 operands only, so every block scale is
//! folded into the fp8 values before the product: a power-of-two scale shifts the
//! exponent, and the product is carried out without widening the weights.

use vstd::arithmetic::power2::{
    lemma2_to64, lemma_pow2_adds, lemma_pow2_pos, lemma_pow2_strictly_increases, pow2,
};
use vstd::bits::lemma_u64_shl_is_mul;
use vstd::prelude::*;

use crate::blocks::{count_elems, counts_fit, elem_count, tile_index, tile_of};
use crate::error::LmError;
use crate::float::{
    f32_mag, f32_of, law_quotient_is_nearest, lemma_exact, lemma_pack, lemma_product_is_exact, F32,
    INF_REST, MAN_SIZE,
};
use crate::formats::{
    e8m0_f32, e8m0_to_f32, fp4_f32, fp4_mag, fp8_f32, fp8_is_nan, fp8_mag, fp8_magnitude, fp8_of,
    is_nearest_fp8_mag, lemma_fp8_is_f32, lemma_fp8_mag_increases, lemma_fp8_max,
    lemma_fp8_of_grid, lemma_nearest_fp8_mag, lemma_nearest_on_grid, lemma_nearest_saturates,
    lemma_nearest_scales, lemma_nearest_zero, nearest_fp8_mag, nearest_magnitude, nibble,
    nibble_at,
};
use crate::indices::count_blocks;

// Reserves the top exponent for infinity and NaN; `fp4_to_fp8` reads it as 4 and 6.
pub use crate::formats::fp4_e2m1_reserved_to_f32 as fp4_e2m1_to_f32;
pub use crate::formats::{f32_to_fp8, fp8_e4m3_to_f32};

verus! {

/// An E4M3 byte times the scale `2^(s - 127)`: the nearest finite byte of the
/// same sign, clamped to the largest finite magnitude. NaN stays as it is.
pub open spec fn folded(b: u8, s: u8) -> u8 {
    if fp8_is_nan(b) {
        b
    } else {
        ((b / 128) * 128 + nearest_fp8_mag(
            fp8_mag((b % 128) as nat) * pow2(s as nat),
            pow2(127),
        )) as u8
    }
}

/// Multiplies one E4M3 byte by a power-of-two scale.
pub fn fold_byte(b: u8, s: u8) -> (r: u8)
    ensures
        r == folded(b, s),
        r / 128 == b / 128,
        fp8_is_nan(r) <==> fp8_is_nan(b),
        !fp8_is_nan(b) ==> is_nearest_fp8_mag(
            fp8_mag((b % 128) as nat) * pow2(s as nat),
            pow2(127),
            (r % 128) as nat,
        ),
{
    let m: u8 = b % 128;
    if m == 127 {
        return b;
    }
    let f: u64 = fp8_magnitude(m);
    let ghost num: nat = fp8_mag(m as nat) * pow2(s as nat);
    let ghost den: nat = pow2(127);
    proof {
        lemma2_to64();
        lemma_pow2_pos(127);
        lemma_fp8_max();
    }
    let q: u8 = if f == 0 {
        proof {
            assert(num == 0) by (nonlinear_arith)
                requires
                    num == fp8_mag(m as nat) * pow2(s as nat),
                    fp8_mag(m as nat) == 0,
            ;
            lemma_nearest_zero(num, den);
        }
        0
    } else if s >= 145 {
        proof {
            lemma_fold_large(f as nat, s as nat);
            lemma_nearest_saturates(num, den);
        }
        126
    } else if s >= 127 {
        let d: u64 = (s - 127) as u64;
        proof {
            lemma_fold_up(f as nat, s as nat, d as nat);
            lemma_u64_shl_is_mul(f, d);
        }
        let best: u8 = nearest_magnitude(f << d, 0);
        proof {
            lemma_nearest_scales((f << d) as nat, pow2(0), pow2(127), best as nat);
            assert(1 * pow2(127) == pow2(127));
            lemma_nearest_fp8_mag(num, den, best as nat);
        }
        best
    } else if s <= 107 {
        proof {
            lemma_fold_small(f as nat, s as nat);
            lemma_nearest_zero(num, den);
        }
        0
    } else {
        let d: u64 = (127 - s) as u64;
        let best: u8 = nearest_magnitude(f, d);
        proof {
            lemma_pow2_pos(s as nat);
            lemma_pow2_adds(d as nat, s as nat);
            lemma_nearest_scales(f as nat, pow2(d as nat), pow2(s as nat), best as nat);
            lemma_nearest_fp8_mag(num, den, best as nat);
        }
        best
    };
    (b / 128) * 128 + q
}

proof fn lemma_fold_large(f: nat, s: nat)
    requires
        f >= 1,
        s >= 145,
    ensures
        f * pow2(s) >= pow2(127) * 229376,
{
    lemma2_to64();
    lemma_pow2_adds(127, 18);
    if s > 145 {
        lemma_pow2_strictly_increases(145, s);
    }
    let p = pow2(127);
    assert(pow2(18) == 0x4_0000);
    assert(f * pow2(s) >= p * 229376) by (nonlinear_arith)
        requires
            f >= 1,
            pow2(s) >= p * 0x4_0000,
            p >= 0,
    ;
}

proof fn lemma_fold_up(f: nat, s: nat, d: nat)
    requires
        f <= 229376,
        127 <= s < 145,
        d == s - 127,
    ensures
        f * pow2(d) < 0x1000_0000_0000,
        (f * pow2(d)) * pow2(127) == f * pow2(s),
{
    lemma2_to64();
    if d < 18 {
        lemma_pow2_strictly_increases(d, 18);
    }
    lemma_pow2_adds(d, 127);
    let p = pow2(d);
    let q = pow2(127);
    assert(f * p <= 229376 * 0x4_0000) by (nonlinear_arith)
        requires
            f <= 229376,
            p <= 0x4_0000,
    ;
    assert((f * p) * q == f * (p * q)) by (nonlinear_arith);
}

proof fn lemma_fold_small(f: nat, s: nat)
    requires
        f <= 229376,
        s <= 107,
    ensures
        2 * (f * pow2(s)) <= pow2(127),
{
    lemma2_to64();
    if s < 107 {
        lemma_pow2_strictly_increases(s, 107);
    }
    lemma_pow2_adds(107, 20);
    let p = pow2(107);
    assert(pow2(20) == 0x10_0000);
    assert(2 * (f * pow2(s)) <= p * 0x10_0000) by (nonlinear_arith)
        requires
            f <= 229376,
            pow2(s) <= p,
    ;
}

/// Folds a `[bn, bk]` block scale into a raw fp8 weight.
///
/// `w8` is the `(n, k)` weight and `scale` the `(n/bn, k/bk)` grid of E8M0 bytes.
/// Every weight becomes the nearest fp8 value to its product with its tile's
/// scale, out-of-range products being clamped to the fp8 maximum.
pub fn fold_fp8_block_scale(
    w8: &[u8],
    scale: &[u8],
    n: usize,
    k: usize,
    bn: usize,
    bk: usize,
) -> (out: Vec<u8>)
    requires
        bn > 0,
        bk > 0,
        w8@.len() == n * k,
        scale@.len() == (n / bn) * (k / bk),
        n == 0 || k == 0 || (n % bn == 0 && k % bk == 0),
    ensures
        out@.len() == n * k,
        forall|p: int|
            0 <= p < n * k ==> #[trigger] out@[p] == folded(
                w8@[p],
                scale@[tile_of(p, k as int, bn as int, bk as int)],
            ),
        forall|p: int|
            0 <= p < n * k ==> #[trigger] out@[p] == folded(
                w8@[p],
                scale@[((p / k as int) / bn as int) * (k as int / bk as int) + (p % k as int)
                    / bk as int],
            ),
{
    let mut out: Vec<u8> = Vec::with_capacity(w8.len());
    let mut p: usize = 0;
    while p < w8.len()
        invariant
            bn > 0,
            bk > 0,
            p <= w8@.len(),
            w8@.len() == n * k,
            scale@.len() == (n / bn) * (k / bk),
            n == 0 || k == 0 || (n % bn == 0 && k % bk == 0),
            out@.len() == p,
            forall|a: int|
                0 <= a < p ==> #[trigger] out@[a] == folded(
                    w8@[a],
                    scale@[tile_of(a, k as int, bn as int, bk as int)],
                ),
        decreases w8@.len() - p,
    {
        proof {
            assert(k > 0 && n > 0) by (nonlinear_arith)
                requires
                    0 <= p < n * k,
                    n >= 0,
                    k >= 0,
            ;
        }
        let t: usize = tile_index(p, n, k, bn, bk, scale.len());
        out.push(fold_byte(w8[p], scale[t]));
        p = p + 1;
    }
    out
}

/// The fold is exact: wherever the product of a weight and its scale is an fp8 value,
/// it becomes that value. `c` are its magnitude bits.
pub proof fn law_fold_is_exact(b: u8, s: u8, c: nat)
    requires
        !fp8_is_nan(b),
        c <= 126,
        fp8_mag((b % 128) as nat) * pow2(s as nat) == fp8_mag(c) * pow2(127),
    ensures
        folded(b, s) == (b / 128) * 128 + c,
{
    let p = pow2(127);
    lemma_pow2_pos(127);
    assert(fp8_mag(c) * p == p * fp8_mag(c)) by (nonlinear_arith);
    lemma_nearest_on_grid(fp8_mag((b % 128) as nat) * pow2(s as nat), p, c);
}

/// Magnitude bits of twice a value, `d` times over.
spec fn doubled(m: nat, d: nat) -> nat
    decreases d,
{
    if d == 0 {
        m
    } else {
        let prev = doubled(m, (d - 1) as nat);
        if prev < 8 {
            2 * prev
        } else {
            prev + 8
        }
    }
}

proof fn lemma_doubled(m: nat, d: nat)
    ensures
        fp8_mag(doubled(m, d)) == fp8_mag(m) * pow2(d),
    decreases d,
{
    lemma_small_powers();
    if d == 0 {
        assert(fp8_mag(m) * 1 == fp8_mag(m));
    } else {
        lemma_doubled(m, (d - 1) as nat);
        let prev = doubled(m, (d - 1) as nat);
        let f = fp8_mag(m);
        let q = pow2((d - 1) as nat);
        lemma_pow2_adds((d - 1) as nat, 1);
        assert(f * (q * 2) == 2 * (f * q)) by (nonlinear_arith);
        if prev < 8 {
            let c = 2 * prev;
            assert(prev / 8 == 0 && prev % 8 == prev);
            if prev < 4 {
                assert(c / 8 == 0 && c % 8 == c);
            } else {
                assert(c / 8 == 1 && c % 8 == c - 8);
                assert((8 + c % 8) * pow2(0) == c);
            }
        } else {
            let c = prev + 8;
            let e = (prev / 8 - 1) as nat;
            assert(c / 8 == prev / 8 + 1 && c % 8 == prev % 8);
            lemma_pow2_adds(e, 1);
            let sig = 8 + prev % 8;
            let pe = pow2(e);
            assert(sig * (pe * 2) == 2 * (sig * pe)) by (nonlinear_arith);
        }
    }
}

/// A scale of at least one keeps a weight on the fp8 grid as long as the product does not
/// exceed the largest fp8 value, so the fold is exact.
pub proof fn law_fold_up_is_exact(b: u8, s: u8)
    requires
        !fp8_is_nan(b),
        s >= 127,
        fp8_mag((b % 128) as nat) * pow2((s - 127) as nat) <= fp8_mag(126),
    ensures
        folded(b, s) / 128 == b / 128,
        !fp8_is_nan(folded(b, s)),
        fp8_mag((folded(b, s) % 128) as nat) == fp8_mag((b % 128) as nat) * pow2(
            (s - 127) as nat,
        ),
{
    let m = (b % 128) as nat;
    let d = (s - 127) as nat;
    let c = doubled(m, d);
    lemma_doubled(m, d);
    if c > 126 {
        lemma_fp8_mag_increases(126, c);
    }
    lemma_pow2_adds(d, 127);
    let f = fp8_mag(m);
    let pd = pow2(d);
    let p = pow2(127);
    assert(f * (pd * p) == (f * pd) * p) by (nonlinear_arith);
    law_fold_is_exact(b, s, c);
}

/// The scale is folded without loss: while the shifted exponent stays in range,
/// only the exponent of a normal weight changes.
pub proof fn law_fold_shifts_exponent(b: u8, s: u8)
    requires
        !fp8_is_nan(b),
        (b % 128) / 8 >= 1,
        1 <= (b % 128) / 8 + s - 127 <= 15,
        b % 128 + 8 * (s - 127) <= 126,
    ensures
        folded(b, s) == b + 8 * (s - 127),
{
    let m = (b % 128) as nat;
    let c = (m + 8 * (s - 127)) as nat;
    let e = m / 8;
    let ec = (e + s - 127) as nat;
    assert(c / 8 == ec && c % 8 == m % 8);
    lemma_pow2_pos(127);
    lemma_pow2_adds((e - 1) as nat, s as nat);
    lemma_pow2_adds((ec - 1) as nat, 127);
    let sig = 8 + m % 8;
    let pe = pow2((e - 1) as nat);
    let pc = pow2((ec - 1) as nat);
    let ps = pow2(s as nat);
    let p = pow2(127);
    assert((sig * pe) * ps == p * (sig * pc)) by (nonlinear_arith)
        requires
            pe * ps == pc * p,
    ;
    lemma_nearest_on_grid(fp8_mag(m) * ps, p, c);
}

/// Zeros keep their sign under every scale.
pub proof fn law_fold_keeps_zero(s: u8)
    ensures
        folded(0x00, s) == 0x00,
        folded(0x80, s) == 0x80,
{
    lemma_pow2_pos(127);
    assert(fp8_mag(0) == 0);
    assert(0 * pow2(s as nat) == 0);
    lemma_nearest_zero(0, pow2(127));
}

/// Converts a packed FP4 E2M1 weight with a per-row scale over 32 columns to fp8.
///
/// `wpack` is the `(n, k/2)` packed weight (low nibble = even column), `scale` the
/// `(n, k/32)` E8M0 scale; every output byte is the nearest fp8 value to
/// `fp4 * scale`. Every nibble is finite: the top exponent holds 4 and 6.
pub fn fp4_to_fp8(wpack: &[u8], scale: &[u8], n: usize, k: usize) -> (out: Vec<u8>)
    requires
        n * k <= usize::MAX,
        wpack@.len() == n * k / 2,
        scale@.len() == n * (k / 32),
        n == 0 || k % 32 == 0,
    ensures
        out@.len() == n * k,
        forall|p: int|
            0 <= p < n * k ==> #[trigger] out@[p] == fp8_of(
                fp4_f32(nibble_at(wpack@, p)).product(
                    e8m0_f32(scale@[tile_of(p, k as int, 1, 32)]),
                ),
            ),
        forall|p: int|
            0 <= p < n * k ==> #[trigger] out@[p] == fp8_of(
                fp4_f32(nibble_at(wpack@, p)).product(
                    e8m0_f32(scale@[(p / k as int) * (k as int / 32) + (p % k as int) / 32]),
                ),
            ),
{
    let mut out: Vec<u8> = Vec::with_capacity(n * k);
    let total: usize = n * k;
    let mut p: usize = 0;
    while p < total
        invariant
            p <= total,
            total == n * k,
            wpack@.len() == n * k / 2,
            scale@.len() == n * (k / 32),
            n == 0 || k % 32 == 0,
            out@.len() == p,
            forall|a: int|
                0 <= a < p ==> #[trigger] out@[a] == fp8_of(
                    fp4_f32(nibble_at(wpack@, a)).product(
                        e8m0_f32(scale@[tile_of(a, k as int, 1, 32)]),
                    ),
                ),
        decreases total - p,
    {
        proof {
            assert(n > 0 && k > 0) by (nonlinear_arith)
                requires
                    0 <= p < n * k,
                    n >= 0,
                    k >= 0,
            ;
            let h: int = k as int / 2;
            assert(k == 2 * h);
            assert(n * k == 2 * (n * h)) by (nonlinear_arith)
                requires
                    k == 2 * h,
            ;
        }
        let nib: u8 = nibble(wpack, p);
        let t: usize = tile_index(p, n, k, 1, 32, scale.len());
        let v: F32 = crate::formats::fp4_e2m1_to_f32(nib).times(e8m0_to_f32(scale[t]));
        out.push(f32_to_fp8(v));
        p = p + 1;
    }
    out
}

/// The E4M3 magnitude bits of an E2M1 magnitude times `2^d` units of `2^-9`.
spec fn fp4_on_fp8_grid(m: nat, d: nat) -> nat {
    if m == 0 {
        0
    } else if m == 1 || m == 2 || m == 4 || m == 8 {
        let t: nat = d + if m == 1 {
            0nat
        } else if m == 2 {
            1
        } else if m == 4 {
            2
        } else {
            3
        };
        if t == 0 {
            1
        } else if t == 1 {
            2
        } else if t == 2 {
            4
        } else {
            (8 * (t - 2)) as nat
        }
    } else {
        let t: nat = d + if m == 3 {
            0nat
        } else if m == 6 {
            1
        } else {
            2
        };
        if t == 0 {
            3
        } else if t == 1 {
            6
        } else {
            (8 * (t - 1) + 4) as nat
        }
    }
}

/// Converting FP4 to fp8 is lossless: wherever `fp4 * scale` is an fp8 value, the byte
/// stands for exactly it. `c` are that value's magnitude bits.
pub proof fn law_fp4_to_fp8_lossless(nib: u8, s: u8, c: nat)
    requires
        s < 255,
        c <= 126,
        fp4_mag((nib % 8) as nat) * pow2(s as nat) == fp8_mag(c) * pow2(119),
    ensures
        ({
            let b = fp8_of(fp4_f32(nib).product(e8m0_f32(s)));
            &&& b % 128 == c
            &&& c > 0 ==> (b >= 128 <==> nib % 16 >= 8)
        }),
{
    let m4 = fp4_mag((nib % 8) as nat);
    lemma_fp4_scaled(nib, s);
    let rest = lemma_fp8_is_f32(c);
    let a = fp4_f32(nib);
    let e = e8m0_f32(s);
    lemma_fp4_units(m4, s as nat, fp8_mag(c));
    lemma_product_is_exact(a, e, rest);
    lemma_pack(a.neg(), rest);
    lemma_fp8_of_grid(a.product(e), c);
}

/// Scales from `2^-8` to `2^6` keep every FP4 value on the fp8 grid, and so does `2^7`
/// for the values up to 3.
pub proof fn law_fp4_stays_on_fp8_grid(nib: u8, s: u8)
    requires
        119 <= s <= 134,
        nib % 8 >= 6 ==> s <= 133,
    ensures
        exists|c: nat|
            c <= 126 && fp4_mag((nib % 8) as nat) * pow2(s as nat) == #[trigger] fp8_mag(c) * pow2(
                119,
            ),
{
    let m4 = fp4_mag((nib % 8) as nat);
    let d = (s - 119) as nat;
    lemma_fp4_small((nib % 8) as nat);
    let c = fp4_on_fp8_grid(m4, d);
    lemma_fp4_grid(m4, d);
    lemma_pow2_adds(d, 119);
    let pd = pow2(d);
    let p119 = pow2(119);
    assert(m4 * (pd * p119) == (m4 * pd) * p119) by (nonlinear_arith);
    assert(m4 * pow2(s as nat) == fp8_mag(c) * p119);
}

/// Half units times a scale, in units of the product.
proof fn lemma_fp4_units(m: nat, s: nat, f: nat)
    requires
        m * pow2(s) == f * pow2(119),
    ensures
        (m * pow2(148)) * pow2((s + 22) as nat) == (f * pow2(140)) * pow2(149),
{
    let ps = pow2(s);
    let p119 = pow2(119);
    let p170 = pow2(170);
    lemma_pow2_adds(148, (s + 22) as nat);
    lemma_pow2_adds(s, 170);
    lemma_pow2_adds(119, 170);
    lemma_pow2_adds(140, 149);
    let x = pow2(148);
    let y = pow2((s + 22) as nat);
    let u = pow2(140);
    let v = pow2(149);
    assert((m * x) * y == (m * ps) * p170) by (nonlinear_arith)
        requires
            x * y == ps * p170,
    ;
    assert((f * u) * v == (f * p119) * p170) by (nonlinear_arith)
        requires
            u * v == p119 * p170,
    ;
}

/// Values of the decoded nibble and scale.
proof fn lemma_fp4_scaled(nib: u8, s: u8)
    requires
        s < 255,
    ensures
        fp4_f32(nib).is_finite(),
        fp4_f32(nib).neg() == (nib % 16 >= 8),
        fp4_f32(nib).mag() == fp4_mag((nib % 8) as nat) * pow2(148),
        e8m0_f32(s).is_finite(),
        !e8m0_f32(s).neg(),
        e8m0_f32(s).mag() == pow2((s + 22) as nat),
{
    crate::formats::lemma_fp4_value(nib);
    crate::formats::lemma_e8m0_value(s);
}

/// The magnitudes of all nibbles.
proof fn lemma_fp4_small(n: nat)
    requires
        n < 8,
    ensures
        fp4_mag(n) == if n < 5 { n } else if n == 5 { 6 } else if n == 6 { 8 } else { 12 },
{
    lemma2_to64();
    assert(pow2(0) == 1 && pow2(1) == 2 && pow2(2) == 4);
    if n == 2 || n == 3 {
        assert(n / 2 == 1 && n % 2 == n - 2);
        assert((2 + n % 2) * pow2(0) == n);
    } else if n == 4 || n == 5 {
        assert(n / 2 == 2 && n % 2 == n - 4);
        assert((2 + n % 2) * pow2(1) == 2 * (n - 2));
    } else if n == 6 || n == 7 {
        assert(n / 2 == 3 && n % 2 == n - 6);
        assert((2 + n % 2) * pow2(2) == 4 * (n - 4));
    }
}

/// The fp8 code of a power of two, in units of `2^-9`.
proof fn lemma_grid_power(t: nat)
    requires
        t <= 17,
    ensures
        fp8_mag(if t < 3 { pow2(t) } else { (8 * (t - 2)) as nat }) == pow2(t),
        pow2(0) == 1,
        pow2(1) == 2,
        pow2(2) == 4,
{
    lemma_small_powers();
    if t >= 3 {
        let c = (8 * (t - 2)) as nat;
        let q = pow2((t - 3) as nat);
        lemma_pow2_adds(3, (t - 3) as nat);
        assert(c / 8 == t - 2);
        assert(c % 8 == 0);
        assert(fp8_mag(c) == 8 * q);
    }
}

/// The fp8 code of three times a power of two.
proof fn lemma_grid_triple(t: nat)
    requires
        t <= 16,
    ensures
        fp8_mag(if t < 2 { 3 * pow2(t) } else { (8 * (t - 1) + 4) as nat }) == 3 * pow2(t),
        pow2(0) == 1,
        pow2(1) == 2,
        pow2(2) == 4,
{
    lemma_small_powers();
    if t >= 2 {
        let c = (8 * (t - 1) + 4) as nat;
        let q = pow2((t - 2) as nat);
        lemma_pow2_adds(2, (t - 2) as nat);
        assert(c / 8 == t - 1);
        assert(c % 8 == 4);
        assert(fp8_mag(c) == 12 * q);
    }
}

proof fn lemma_small_powers()
    ensures
        pow2(0) == 1,
        pow2(1) == 2,
        pow2(2) == 4,
        pow2(3) == 8,
{
    lemma2_to64();
}

proof fn lemma_fp4_grid(m: nat, d: nat)
    requires
        m == 0 || m == 1 || m == 2 || m == 3 || m == 4 || m == 6 || m == 8 || m == 12,
        d <= 15,
        m >= 8 ==> d <= 14,
    ensures
        fp4_on_fp8_grid(m, d) <= 126,
        fp8_mag(fp4_on_fp8_grid(m, d)) == m * pow2(d),
{
    let pd = pow2(d);
    if m == 0 {
        assert(m * pd == 0) by (nonlinear_arith)
            requires
                m == 0,
        ;
        assert(fp8_mag(0) == 0);
    } else if m == 1 {
        lemma_grid_power(d);
    } else if m == 2 {
        lemma_grid_power(d + 1);
        lemma_pow2_adds(1, d);
    } else if m == 4 {
        lemma_grid_power(d + 2);
        lemma_pow2_adds(2, d);
    } else if m == 3 {
        lemma_grid_triple(d);
    } else if m == 6 {
        lemma_grid_triple(d + 1);
        lemma_pow2_adds(1, d);
    } else if m == 8 {
        lemma_small_powers();
        lemma_grid_power(d + 3);
        lemma_pow2_adds(3, d);
    } else {
        lemma_grid_triple(d + 2);
        lemma_pow2_adds(2, d);
    }
}

/// Bits of the smallest magnitude that a scale is computed from, `1e-30`.
pub const TINY_REST: u32 = 0x0DA2_4260;

/// Bits of 448, the largest finite fp8 value.
pub const FP8_MAX_REST: u32 = 0x43E0_0000;

/// The largest magnitude bits among the first `upto` numbers, NaN left out, and
/// at least those of `1e-30`.
pub open spec fn max_rest(vals: Seq<F32>, upto: nat) -> nat
    decreases upto,
{
    if upto == 0 {
        TINY_REST as nat
    } else {
        let v = vals[upto - 1];
        let prev = max_rest(vals, (upto - 1) as nat);
        if !v.is_nan() && v.rest() > prev {
            v.rest()
        } else {
            prev
        }
    }
}

/// Quantizes numbers to fp8 bytes with one scale for the whole array.
///
/// Returns `(bytes, scale)` with `scale = 448 / max|v|`, each byte the nearest fp8
/// value to `v * scale`, so that `value ~ fp8(bytes) / scale`.
pub fn quantize_fp8(vals: &[F32]) -> (r: (Vec<u8>, F32))
    ensures
        r.1 == (F32 { bits: FP8_MAX_REST }).quotient(
            F32 { bits: max_rest(vals@, vals@.len()) as u32 },
        ),
        r.0@.len() == vals@.len(),
        forall|p: int|
            0 <= p < vals@.len() ==> #[trigger] r.0@[p] == fp8_of(vals@[p].product(r.1)),
{
    let mut max: u32 = TINY_REST;
    let mut i: usize = 0;
    while i < vals.len()
        invariant
            i <= vals@.len(),
            max == max_rest(vals@, i as nat),
        decreases vals@.len() - i,
    {
        let a: u32 = vals[i].magnitude_bits();
        if a <= INF_REST && a > max {
            max = a;
        }
        i = i + 1;
    }
    let scale: F32 = F32 { bits: FP8_MAX_REST }.over(F32 { bits: max });
    let mut bytes: Vec<u8> = Vec::with_capacity(vals.len());
    let mut p: usize = 0;
    while p < vals.len()
        invariant
            p <= vals@.len(),
            bytes@.len() == p,
            forall|a: int| 0 <= a < p ==> #[trigger] bytes@[a] == fp8_of(vals@[a].product(scale)),
        decreases vals@.len() - p,
    {
        bytes.push(f32_to_fp8(vals[p].times(scale)));
        p = p + 1;
    }
    (bytes, scale)
}

/// The column block of element `p` in a row-major matrix with `k` columns.
pub open spec fn block_of(p: int, k: int, bk: int) -> int {
    (p % k) / bk
}

/// As `max_rest`, over the elements of one column block.
pub open spec fn block_max(vals: Seq<F32>, k: int, bk: int, b: int, upto: nat) -> nat
    decreases upto,
{
    if upto == 0 {
        TINY_REST as nat
    } else {
        let v = vals[upto - 1];
        let prev = block_max(vals, k, bk, b, (upto - 1) as nat);
        if block_of(upto - 1, k, bk) == b && !v.is_nan() && v.rest() > prev {
            v.rest()
        } else {
            prev
        }
    }
}

/// No number of a block exceeds the block's maximum, which is one of them or
/// `1e-30`.
pub proof fn law_block_max_bounds(vals: Seq<F32>, k: int, bk: int, b: int, upto: nat)
    ensures
        block_max(vals, k, bk, b, upto) >= TINY_REST,
        block_max(vals, k, bk, b, upto) <= INF_REST,
        forall|p: int|
            0 <= p < upto && block_of(p, k, bk) == b && !(#[trigger] vals[p]).is_nan()
                ==> vals[p].rest() <= block_max(vals, k, bk, b, upto),
        block_max(vals, k, bk, b, upto) > TINY_REST ==> exists|p: int|
            0 <= p < upto && block_of(p, k, bk) == b && (#[trigger] vals[p]).rest() == block_max(
                vals,
                k,
                bk,
                b,
                upto,
            ),
    decreases upto,
{
    if upto > 0 {
        law_block_max_bounds(vals, k, bk, b, (upto - 1) as nat);
    }
}

/// The exponent `s` maps the magnitude with bits `rest` into `(224, 448]`.
pub open spec fn is_block_exp(rest: nat, s: int) -> bool {
    &&& -149 <= s
    &&& 224 * pow2(298) < f32_mag(rest) * pow2((s + 149) as nat)
    &&& f32_mag(rest) * pow2((s + 149) as nat) <= 448 * pow2(298)
}

/// The power-of-two scale of a block whose largest magnitude has bits `rest`; a
/// block that holds an infinity has scale zero.
pub open spec fn is_block_scale(rest: nat, scale: F32) -> bool {
    if rest == INF_REST {
        scale == (F32 { bits: 0 })
    } else {
        exists|s: int|
            -120 <= s <= 108 && #[trigger] is_block_exp(rest, s) && scale == f32_of(
                false,
                pow2((s + 149) as nat),
            )
    }
}

/// The power-of-two scale for a block.
fn block_scale(rest: u32) -> (scale: F32)
    requires
        TINY_REST <= rest <= INF_REST,
    ensures
        is_block_scale(rest as nat, scale),
{
    if rest == INF_REST {
        return F32 { bits: 0 };
    }
    let exp: u32 = rest / MAN_SIZE;
    let man: u32 = rest % MAN_SIZE;
    let top: u32 = if man <= 0x60_0000 {
        262 - exp
    } else {
        261 - exp
    };
    proof {
        let s: int = top - 127;
        assert(27 <= exp <= 254);
        lemma_block_exp(rest as nat, s);
        lemma_power_bits(top as nat);
        lemma_exact(false, (top * 0x80_0000) as nat);
        assert(is_block_exp(rest as nat, s));
    }
    F32 { bits: top * MAN_SIZE }
}

/// The magnitude of a power of two.
proof fn lemma_power_bits(top: nat)
    requires
        1 <= top <= 254,
    ensures
        f32_mag(top * 0x80_0000) == pow2((top + 22) as nat),
{
    lemma2_to64();
    assert((top * 0x80_0000) / 0x80_0000 == top && (top * 0x80_0000) % 0x80_0000 == 0);
    lemma_pow2_adds(23, (top - 1) as nat);
}

proof fn lemma_block_exp(rest: nat, s: int)
    requires
        1 <= rest / 0x80_0000 <= 254,
        s == 135 - rest / 0x80_0000 - if rest % 0x80_0000 <= 0x60_0000 {
            0int
        } else {
            1
        },
    ensures
        is_block_exp(rest, s),
{
    lemma2_to64();
    let e = rest / 0x80_0000;
    let man = rest % 0x80_0000;
    let sig = 0x80_0000 + man;
    let k = (s + 149) as nat;
    lemma_pow2_adds((e - 1) as nat, k);
    let pe = pow2((e - 1) as nat);
    let pk = pow2(k);
    assert((sig * pe) * pk == sig * (pe * pk)) by (nonlinear_arith);
    // pe * pk is 2^283 or 2^282
    let p282 = pow2(282);
    lemma_pow2_adds(282, 1);
    lemma_pow2_adds(282, 16);
    assert(pow2(16) == 0x1_0000);
    lemma_pow2_pos(282);
    if man <= 0x60_0000 {
        assert(pe * pk == p282 * 2);
        assert(sig * (p282 * 2) > 224 * (p282 * 0x1_0000)) by (nonlinear_arith)
            requires
                sig >= 0x80_0000,
                p282 > 0,
        ;
        assert(sig * (p282 * 2) <= 448 * (p282 * 0x1_0000)) by (nonlinear_arith)
            requires
                sig <= 0xE0_0000,
        ;
    } else {
        assert(pe * pk == p282);
        assert(sig * p282 > 224 * (p282 * 0x1_0000)) by (nonlinear_arith)
            requires
                sig > 0xE0_0000,
                p282 > 0,
        ;
        assert(sig * p282 <= 448 * (p282 * 0x1_0000)) by (nonlinear_arith)
            requires
                sig < 0x100_0000,
        ;
    }
}

/// Quantizes a row-major `(m, k)` array to fp8 with one power-of-two scale for
/// every `bk`-wide slice of the columns, shared across all rows.
///
/// Returns the folded bytes and the scales `2^s`, one per slice.
pub fn quantize_fp8_block(vals: &[F32], m: usize, k: usize, bk: usize) -> (r: (Vec<u8>, Vec<F32>))
    requires
        bk > 0,
        m * k <= vals@.len(),
    ensures
        r.0@.len() == m * k,
        r.1@.len() == (k + bk - 1) / bk as int,
        forall|b: int|
            0 <= b < r.1@.len() ==> is_block_scale(
                block_max(vals@, k as int, bk as int, b, (m * k) as nat),
                #[trigger] r.1@[b],
            ),
        forall|p: int|
            0 <= p < m * k ==> #[trigger] r.0@[p] == fp8_of(
                vals@[p].product(r.1@[block_of(p, k as int, bk as int)]),
            ),
{
    let len: usize = vals.len();
    let total: usize = m * k;
    let nblocks: usize = count_blocks(k, bk);
    let mut maxs: Vec<u32> = Vec::with_capacity(nblocks);
    let mut b: usize = 0;
    while b < nblocks
        invariant
            b <= nblocks,
            maxs@.len() == b,
            forall|a: int| 0 <= a < b ==> #[trigger] maxs@[a] == TINY_REST,
        decreases nblocks - b,
    {
        maxs.push(TINY_REST);
        b = b + 1;
    }
    let mut p: usize = 0;
    while p < total
        invariant
            p <= total,
            total == m * k,
            total <= vals@.len(),
            bk > 0,
            nblocks == (k + bk - 1) / bk as int,
            maxs@.len() == nblocks,
            forall|a: int|
                0 <= a < nblocks ==> #[trigger] maxs@[a] == block_max(
                    vals@,
                    k as int,
                    bk as int,
                    a,
                    p as nat,
                ),
        decreases total - p,
    {
        proof {
            lemma_block_in_range(p as int, m as int, k as int, bk as int);
        }
        let b: usize = (p % k) / bk;
        let a: u32 = vals[p].magnitude_bits();
        if a <= INF_REST && a > maxs[b] {
            maxs.set(b, a);
        }
        p = p + 1;
    }
    let mut scales: Vec<F32> = Vec::with_capacity(nblocks);
    let mut b: usize = 0;
    while b < nblocks
        invariant
            b <= nblocks,
            total == m * k,
            maxs@.len() == nblocks,
            scales@.len() == b,
            forall|a: int|
                0 <= a < nblocks ==> #[trigger] maxs@[a] == block_max(
                    vals@,
                    k as int,
                    bk as int,
                    a,
                    total as nat,
                ),
            forall|a: int|
                0 <= a < b ==> is_block_scale(
                    block_max(vals@, k as int, bk as int, a, total as nat),
                    #[trigger] scales@[a],
                ),
        decreases nblocks - b,
    {
        proof {
            law_block_max_bounds(vals@, k as int, bk as int, b as int, total as nat);
        }
        scales.push(block_scale(maxs[b]));
        b = b + 1;
    }
    let mut out: Vec<u8> = Vec::with_capacity(total);
    let mut p: usize = 0;
    while p < total
        invariant
            p <= total,
            total == m * k,
            total <= vals@.len(),
            bk > 0,
            nblocks == (k + bk - 1) / bk as int,
            scales@.len() == nblocks,
            out@.len() == p,
            forall|a: int|
                0 <= a < p ==> #[trigger] out@[a] == fp8_of(
                    vals@[a].product(scales@[block_of(a, k as int, bk as int)]),
                ),
        decreases total - p,
    {
        proof {
            lemma_block_in_range(p as int, m as int, k as int, bk as int);
        }
        let b: usize = (p % k) / bk;
        out.push(f32_to_fp8(vals[p].times(scales[b])));
        p = p + 1;
    }
    (out, scales)
}

/// Every element has a column block.
proof fn lemma_block_in_range(p: int, m: int, k: int, bk: int)
    requires
        0 <= p < m * k,
        k >= 0,
        bk > 0,
    ensures
        k > 0,
        0 <= p % k < k,
        0 <= block_of(p, k, bk) < (k + bk - 1) / bk,
{
    assert(k > 0) by (nonlinear_arith)
        requires
            0 <= p < m * k,
            k >= 0,
    ;
    let j = p % k;
    let g = (k + bk - 1) / bk;
    vstd::arithmetic::div_mod::lemma_fundamental_div_mod(j, bk);
    vstd::arithmetic::div_mod::lemma_fundamental_div_mod(k + bk - 1, bk);
    let q = j / bk;
    assert(0 <= q < g) by (nonlinear_arith)
        requires
            0 <= j < k,
            bk > 0,
            j == bk * q + j % bk,
            0 <= j % bk < bk,
            k + bk - 1 == bk * g + (k + bk - 1) % bk,
            0 <= (k + bk - 1) % bk < bk,
    ;
}

/// Shape and strides of one fp8 x fp8 product `d = alpha * (a @ b)`.
#[derive(Debug, Clone, Copy, PartialEq, Eq, Structural)]
pub struct GemmConfig {
    pub transa: bool,
    pub transb: bool,
    pub m: u64,
    pub n: u64,
    pub k: u64,
    pub lda: i64,
    pub ldb: i64,
    pub ldc: i64,
}

/// Rows, columns and leading dimension of a row-major operand.
#[derive(Debug, Clone, Copy, PartialEq, Eq, Structural)]
pub struct MatrixLayout {
    pub rows: u64,
    pub cols: u64,
    pub ld: i64,
}

impl GemmConfig {
    /// The product of an `(m, inp)` activation with an `(out, inp)` weight, whose
    /// transpose is the right operand.
    pub fn linear(m: usize, out: usize, inp: usize, transb: bool) -> (cfg: GemmConfig)
        requires
            out <= i64::MAX,
            inp <= i64::MAX,
        ensures
            !cfg.transa,
            cfg.transb == transb,
            cfg.m == m,
            cfg.n == out,
            cfg.k == inp,
            cfg.lda == inp,
            cfg.ldb == inp,
            cfg.ldc == out,
    {
        GemmConfig {
            transa: false,
            transb,
            m: m as u64,
            n: out as u64,
            k: inp as u64,
            lda: inp as i64,
            ldb: inp as i64,
            ldc: out as i64,
        }
    }

    /// The layouts of the left operand, the right operand and the result.
    pub fn layouts(&self) -> (r: (MatrixLayout, MatrixLayout, MatrixLayout))
        ensures
            r.0 == (MatrixLayout { rows: self.m, cols: self.k, ld: self.lda }),
            self.transb ==> r.1 == (MatrixLayout { rows: self.n, cols: self.k, ld: self.ldb }),
            !self.transb ==> r.1 == (MatrixLayout { rows: self.k, cols: self.n, ld: self.ldb }),
            r.2 == (MatrixLayout { rows: self.m, cols: self.n, ld: self.ldc }),
    {
        let b: MatrixLayout = if self.transb {
            MatrixLayout { rows: self.n, cols: self.k, ld: self.ldb }
        } else {
            MatrixLayout { rows: self.k, cols: self.n, ld: self.ldb }
        };
        (
            MatrixLayout { rows: self.m, cols: self.k, ld: self.lda },
            b,
            MatrixLayout { rows: self.m, cols: self.n, ld: self.ldc },
        )
    }
}

/// An fp8-quantized `(rows, cols)` linear weight with `w ~ fp8(bytes) / scale`.
pub struct Fp8Weight {
    pub bytes: Vec<u8>,
    pub rows: usize,
    pub cols: usize,
    pub scale: F32,
}

impl Fp8Weight {
    /// Quantizes the row-major values of an `(out, inp)` weight.
    pub fn from_tensor(vals: &[F32], out: usize, inp: usize) -> (w: Fp8Weight)
        requires
            vals@.len() == out * inp,
        ensures
            w.rows == out,
            w.cols == inp,
            w.bytes@.len() == out * inp,
            w.scale == (F32 { bits: FP8_MAX_REST }).quotient(
                F32 { bits: max_rest(vals@, vals@.len()) as u32 },
            ),
            forall|p: int|
                0 <= p < vals@.len() ==> #[trigger] w.bytes@[p] == fp8_of(vals@[p].product(w.scale)),
    {
        let (bytes, scale) = quantize_fp8(vals);
        Fp8Weight { bytes, rows: out, cols: inp, scale }
    }
}

/// Width of the column slices of a linear projection.
pub const SLICE_WIDTH: usize = 128;

/// One slice of the reduction: columns `start .. start + len`, whose product is
/// multiplied by `alpha`.
#[derive(Debug, Clone, Copy, PartialEq, Eq, Structural)]
pub struct LinearSlice {
    pub start: usize,
    pub len: usize,
    pub alpha: F32,
}

/// A linear projection as scalar-scaled products over column slices, to be added
/// up.
pub struct LinearPlan {
    /// Rows of the flattened activation.
    pub lead: usize,
    /// Columns of the flattened activation.
    pub inp: usize,
    /// The quantized activation, `(lead, inp)`.
    pub act: Vec<u8>,
    /// The power-of-two scale of every slice of the activation.
    pub scales: Vec<F32>,
    pub slices: Vec<LinearSlice>,
    /// Shape of the result.
    pub out_dims: Vec<usize>,
}

/// The factor that undoes the slice's scale and the weight's scale.
pub open spec fn slice_alpha(block_scale: F32, weight_scale: F32) -> F32 {
    (F32 { bits: 0x3F80_0000 }).quotient(block_scale.product(weight_scale))
}

/// Slice `b` of `inp` columns: 128 wide, or what is left of the columns.
pub open spec fn linear_slice(b: int, inp: int, block_scale: F32, weight_scale: F32) -> LinearSlice {
    LinearSlice {
        start: (b * 128) as usize,
        len: (if b * 128 + 128 <= inp {
            128
        } else {
            inp - b * 128
        }) as usize,
        alpha: slice_alpha(block_scale, weight_scale),
    }
}

/// Plans `act @ w` for an activation of shape `dims` with row-major values `vals`.
///
/// The input dimension is cut into 128-wide slices, each quantized with its own
/// power-of-two scale; slice scale and weight scale are undone by `alpha`.
pub fn fp8_linear(vals: &[F32], dims: &[usize], w: &Fp8Weight) -> (r: Result<LinearPlan, LmError>)
    requires
        dims@.len() > 0,
        dims@.last() > 0,
        counts_fit(dims@.drop_last()),
        vals@.len() == elem_count(dims@),
    ensures
        w.cols < dims@.last() ==> r == Err::<LinearPlan, LmError>(
            LmError::InputWidth { cols: w.cols, inp: dims@.last() },
        ),
        w.cols >= dims@.last() ==> r is Ok && ({
            let plan = r->Ok_0;
            let inp = dims@.last() as int;
            let total = (plan.lead * plan.inp) as nat;
            &&& plan.lead == elem_count(dims@.drop_last())
            &&& plan.inp == inp
            &&& plan.act@.len() == plan.lead * plan.inp
            &&& plan.scales@.len() == (inp + 127) / 128
            &&& plan.slices@.len() == plan.scales@.len()
            &&& plan.out_dims@ == dims@.drop_last().push(w.rows)
            &&& forall|b: int|
                0 <= b < plan.scales@.len() ==> is_block_scale(
                    block_max(vals@, inp, 128, b, total),
                    #[trigger] plan.scales@[b],
                )
            &&& forall|p: int|
                0 <= p < total ==> #[trigger] plan.act@[p] == fp8_of(
                    vals@[p].product(plan.scales@[block_of(p, inp, 128)]),
                )
            &&& forall|b: int|
                0 <= b < plan.slices@.len() ==> #[trigger] plan.slices@[b] == linear_slice(
                    b,
                    inp,
                    plan.scales@[b],
                    w.scale,
                )
        }),
{
    let rank: usize = dims.len();
    let inp: usize = dims[rank - 1];
    if w.cols < inp {
        return Err(LmError::InputWidth { cols: w.cols, inp });
    }
    proof {
        assert(dims@.take(rank - 1) =~= dims@.drop_last());
    }
    let lead: usize = count_elems(dims, rank - 1);
    let (act, scales) = quantize_fp8_block(vals, lead, inp, SLICE_WIDTH);
    let mut slices: Vec<LinearSlice> = Vec::with_capacity(scales.len());
    let mut b: usize = 0;
    while b < scales.len()
        invariant
            b <= scales@.len(),
            inp > 0,
            scales@.len() == (inp + 127) / 128,
            slices@.len() == b,
            forall|a: int|
                0 <= a < b ==> #[trigger] slices@[a] == linear_slice(
                    a,
                    inp as int,
                    scales@[a],
                    w.scale,
                ),
        decreases scales@.len() - b,
    {
        let start: usize = b * SLICE_WIDTH;
        let len: usize = if inp - start >= SLICE_WIDTH {
            SLICE_WIDTH
        } else {
            inp - start
        };
        let alpha: F32 = F32 { bits: 0x3F80_0000 }.over(scales[b].times(w.scale));
        slices.push(LinearSlice { start, len, alpha });
        b = b + 1;
    }
    let mut out_dims: Vec<usize> = Vec::with_capacity(rank);
    let mut i: usize = 0;
    while i < rank - 1
        invariant
            rank == dims@.len(),
            rank > 0,
            i <= rank - 1,
            out_dims@ == dims@.take(i as int),
        decreases rank - i,
    {
        out_dims.push(dims[i]);
        i = i + 1;
    }
    out_dims.push(w.rows);
    proof {
        let ghost lead_dims = dims@.drop_last();
        assert(dims@.take(rank - 1) =~= lead_dims);
    }
    Ok(LinearPlan { lead, inp, act, scales, slices, out_dims })
}

/// Column `j` lies in one of the slices.
pub open spec fn in_some_slice(slices: Seq<LinearSlice>, j: int) -> bool {
    exists|b: int|
        0 <= b < slices.len() && (#[trigger] slices[b]).start <= j < slices[b].start + slices[b].len
}

/// The slices of a plan cover every input column exactly once, in order.
pub proof fn law_slices_partition(
    slices: Seq<LinearSlice>,
    inp: int,
    scales: Seq<F32>,
    scale: F32,
)
    requires
        0 < inp <= usize::MAX,
        slices.len() == (inp + 127) / 128,
        scales.len() == slices.len(),
        forall|b: int|
            0 <= b < slices.len() ==> #[trigger] slices[b] == linear_slice(b, inp, scales[b], scale),
    ensures
        forall|j: int| 0 <= j < inp ==> #[trigger] in_some_slice(slices, j),
        forall|b: int, c: int|
            0 <= b < c < slices.len() ==> (#[trigger] slices[b]).start + slices[b].len <= (
            #[trigger] slices[c]).start,
        forall|b: int|
            0 <= b < slices.len() ==> 0 < (#[trigger] slices[b]).len <= 128 && slices[b].start
                + slices[b].len <= inp,
{
    assert forall|j: int| 0 <= j < inp implies #[trigger] in_some_slice(slices, j) by {
        let b = j / 128;
        assert(0 <= b < slices.len());
        assert(slices[b].start <= j < slices[b].start + slices[b].len);
    }
}

/// A grouped projection: group `g` multiplies its slice of the activation with
/// weight rows `g * out_per_group .. (g + 1) * out_per_group`.
pub struct GroupedPlan {
    pub batch: usize,
    pub n_groups: usize,
    pub in_per_group: usize,
    pub out_per_group: usize,
    /// First weight row of every group.
    pub row_starts: Vec<usize>,
    /// Shape of the result.
    pub out_dims: Vec<usize>,
}

/// Plans a block-diagonal projection of an activation of shape
/// `(..., n_groups, in_per_group)` with an `(n_groups * out_per_group,
/// in_per_group)` weight of shape `w_dims`.
pub fn fp8_grouped_linear(
    dims: &[usize],
    w_dims: (usize, usize),
    n_groups: usize,
) -> (r: Result<GroupedPlan, LmError>)
    requires
        dims@.len() >= 2,
        n_groups > 0,
        counts_fit(dims@),
        elem_count(dims@.take(dims@.len() - 2)) * n_groups <= usize::MAX,
        elem_count(dims@.take(dims@.len() - 2)) * n_groups * w_dims.1 <= usize::MAX,
    ensures
        ({
            let batch = elem_count(dims@.take(dims@.len() - 2));
            let expected = batch * n_groups * w_dims.1;
            if elem_count(dims@) != expected {
                r == Err::<GroupedPlan, LmError>(
                    LmError::GroupShape {
                        len: elem_count(dims@) as usize,
                        expected: expected as usize,
                    },
                )
            } else {
                &&& r is Ok
                &&& r->Ok_0.batch == batch
                &&& r->Ok_0.n_groups == n_groups
                &&& r->Ok_0.in_per_group == w_dims.1
                &&& r->Ok_0.out_per_group == w_dims.0 / n_groups
                &&& r->Ok_0.row_starts@.len() == n_groups
                &&& forall|g: int|
                    0 <= g < n_groups ==> #[trigger] r->Ok_0.row_starts@[g] == g * (w_dims.0
                        / n_groups) && r->Ok_0.row_starts@[g] + w_dims.0 / n_groups <= w_dims.0
                &&& r->Ok_0.out_dims@ == dims@.take(dims@.len() - 2).push(n_groups).push(
                    (w_dims.0 / n_groups) as usize,
                )
            }
        }),
{
    let ndim: usize = dims.len();
    let out_per_group: usize = w_dims.0 / n_groups;
    proof {
        assert(counts_fit(dims@.take(ndim - 2))) by {
            let lead = dims@.take(ndim - 2);
            assert forall|i: int| 0 <= i <= lead.len() implies #[trigger] elem_count(lead.take(i))
                <= usize::MAX by {
                assert(lead.take(i) =~= dims@.take(i));
            }
        }
        assert(dims@.take(ndim as int) =~= dims@);
    }
    let batch: usize = count_elems(dims, ndim - 2);
    let len: usize = count_elems(dims, ndim);
    let expected: usize = batch * n_groups * w_dims.1;
    if len != expected {
        return Err(LmError::GroupShape { len, expected });
    }
    let mut row_starts: Vec<usize> = Vec::with_capacity(n_groups);
    let mut g: usize = 0;
    while g < n_groups
        invariant
            g <= n_groups,
            n_groups > 0,
            out_per_group == w_dims.0 / n_groups,
            row_starts@.len() == g,
            forall|a: int|
                0 <= a < g ==> #[trigger] row_starts@[a] == a * out_per_group && row_starts@[a]
                    + out_per_group <= w_dims.0,
        decreases n_groups - g,
    {
        proof {
            vstd::arithmetic::div_mod::lemma_fundamental_div_mod(w_dims.0 as int, n_groups as int);
            assert(0 <= g * out_per_group && g * out_per_group + out_per_group <= w_dims.0)
                by (nonlinear_arith)
                requires
                    0 <= g < n_groups,
                    0 <= out_per_group,
                    w_dims.0 == n_groups * out_per_group + w_dims.0 as int % n_groups as int,
                    0 <= w_dims.0 as int % n_groups as int,
            ;
        }
        row_starts.push(g * out_per_group);
        g = g + 1;
    }
    let mut out_dims: Vec<usize> = Vec::with_capacity(ndim);
    let mut i: usize = 0;
    while i < ndim - 2
        invariant
            ndim == dims@.len(),
            ndim >= 2,
            i <= ndim - 2,
            out_dims@ == dims@.take(i as int),
        decreases ndim - i,
    {
        out_dims.push(dims[i]);
        i = i + 1;
    }
    out_dims.push(n_groups);
    out_dims.push(out_per_group);
    Ok(
        GroupedPlan {
            batch,
            n_groups,
            in_per_group: w_dims.1,
            out_per_group,
            row_starts,
            out_dims,
        },
    )
}

/// Byte offset of a view that starts `start` elements into a buffer.
pub fn view_byte_offset(start: usize, elem_size: usize) -> (r: usize)
    requires
        start * elem_size <= usize::MAX,
    ensures
        r == start * elem_size,
{
    start * elem_size
}

/// The magnitude that the scale of an array is computed from bounds every number of the
/// array, and is that of one of them or `1e-30`.
pub proof fn law_max_bounds(vals: Seq<F32>, upto: nat)
    ensures
        max_rest(vals, upto) >= 0x0DA2_4260,
        max_rest(vals, upto) <= 0x7F80_0000,
        forall|p: int|
            0 <= p < upto && !(#[trigger] vals[p]).is_nan() ==> vals[p].rest() <= max_rest(
                vals,
                upto,
            ),
        max_rest(vals, upto) > 0x0DA2_4260 ==> exists|p: int|
            0 <= p < upto && (#[trigger] vals[p]).rest() == max_rest(vals, upto),
    decreases upto,
{
    if upto > 0 {
        law_max_bounds(vals, (upto - 1) as nat);
    }
}

/// The largest fp8 value, which the scale maps the largest magnitude to, is 448.
pub proof fn law_scale_target(b: u8)
    requires
        !fp8_is_nan(b),
    ensures
        (F32 { bits: FP8_MAX_REST }).mag() == 448 * pow2(149),
        fp8_f32(b).mag() <= 448 * pow2(149),
{
    lemma2_to64();
    assert(0x43E0_0000nat / 0x80_0000 == 135 && 0x43E0_0000nat % 0x80_0000 == 0x60_0000);
    lemma_pow2_adds(15, 134);
    let p = pow2(134);
    assert(pow2(15) == 0x8000);
    assert(0xE0_0000 * p == 448 * (0x8000 * p)) by (nonlinear_arith);
    crate::formats::lemma_fp8_value(b);
    lemma_fp8_max();
    let m = (b % 128) as nat;
    if m < 126 {
        lemma_fp8_mag_increases(m, 126);
    }
    lemma_pow2_adds(140, 9);
    let q = pow2(140);
    let f = fp8_mag(m);
    assert(pow2(9) == 512);
    assert(f * q <= 448 * (q * 512)) by (nonlinear_arith)
        requires
            f <= 229376,
    ;
}

/// Element `(i, j)` lies in the column block that covers column `j`.
pub proof fn law_block_of_element(i: int, j: int, k: int, bk: int, b: int)
    requires
        bk > 0,
        0 <= i,
        0 <= j < k,
        b * bk <= j < (b + 1) * bk,
    ensures
        block_of(i * k + j, k, bk) == b,
{
    crate::blocks::lemma_row_col(i, j, i + 1, k);
    assert((b + 1) * bk == b * bk + bk) by (nonlinear_arith);
    vstd::arithmetic::div_mod::lemma_fundamental_div_mod_converse(j, bk, b, j - b * bk);
}

/// A block's scale is a power of two that brings the block's largest magnitude into
/// `(224, 448]`; a block that holds an infinity has scale zero.
pub proof fn law_block_scale_fills_the_range(rest: nat, scale: F32)
    requires
        rest <= 0x7F80_0000,
        is_block_scale(rest, scale),
    ensures
        rest < 0x7F80_0000 ==> 224 * pow2(298) < f32_mag(rest) * scale.mag() && f32_mag(rest)
            * scale.mag() <= 448 * pow2(298),
        rest < 0x7F80_0000 ==> !scale.neg() && exists|k: nat| scale.mag() == #[trigger] pow2(k),
        rest == 0x7F80_0000 ==> scale.bits == 0,
{
    if rest < 0x7F80_0000 {
        let s = choose|s: int|
            -120 <= s <= 108 && #[trigger] is_block_exp(rest, s) && scale == f32_of(
                false,
                pow2((s + 149) as nat),
            );
        let top = (s + 127) as nat;
        lemma_power_bits(top);
        lemma_exact(false, top * 0x80_0000);
        assert(scale.mag() == pow2((s + 149) as nat));
    }
}

/// The factor of a slice undoes its two scales: of all numbers it is nearest to one over
/// their product.
pub proof fn law_alpha_undoes_the_scales(block_scale: F32, weight_scale: F32, other: nat)
    requires
        block_scale.product(weight_scale).is_finite(),
        block_scale.product(weight_scale).mag() > 0,
        other <= INF_REST,
    ensures
        ({
            let both = block_scale.product(weight_scale);
            let alpha = slice_alpha(block_scale, weight_scale);
            let near = pow2(298) - both.mag() * alpha.mag();
            let far = pow2(298) - both.mag() * f32_mag(other);
            &&& !alpha.is_nan()
            &&& alpha.neg() == both.neg()
            &&& -near <= far || -near <= -far
            &&& near <= far || near <= -far
        }),
{
    let one = F32 { bits: 0x3F80_0000 };
    lemma_power_bits(127);
    assert(one.rest() == 127 * 0x80_0000);
    assert(one.mag() == pow2(149));
    lemma_pow2_adds(149, 149);
    law_quotient_is_nearest(one, block_scale.product(weight_scale), other);
}

/// Every slice undoes the scale of its own columns: slice `b` covers the columns of block
/// `b`, and its factor is that of scale `b` and the weight.
pub proof fn law_slices_carry_their_scale(
    b: int,
    j: int,
    inp: int,
    scale_b: F32,
    weight_scale: F32,
)
    requires
        0 < inp <= usize::MAX,
        0 <= b,
        b * 128 < inp,
        0 <= j < inp,
    ensures
        ({
            let s = linear_slice(b, inp, scale_b, weight_scale);
            &&& s.start <= j < s.start + s.len <==> j / 128 == b
            &&& s.alpha == slice_alpha(scale_b, weight_scale)
        }),
{
}

/// Folding goes to the nearest byte of the same sign: with the scale `2^(s - 127)` no finite
/// magnitude lies closer to the scaled one. NaN stays.
pub proof fn law_folding_is_nearest(b: u8, s: u8, c: nat)
    requires
        c <= 126,
    ensures
        folded(b, s) / 128 == b / 128,
        fp8_is_nan(b) ==> folded(b, s) == b,
        !fp8_is_nan(b) ==> folded(b, s) % 128 <= 126 && ({
            let exact = fp8_mag((b % 128) as nat) * pow2(s as nat);
            let near = exact - pow2(127) * fp8_mag((folded(b, s) % 128) as nat);
            let far = exact - pow2(127) * fp8_mag(c);
            &&& -near <= far || -near <= -far
            &&& near <= far || near <= -far
        }),
{
    if !fp8_is_nan(b) {
        let num = fp8_mag((b % 128) as nat) * pow2(s as nat);
        let m = crate::formats::lemma_nearest_among(num, pow2(127), 127);
        assert(is_nearest_fp8_mag(num, pow2(127), m));
        lemma_nearest_fp8_mag(num, pow2(127), m);
        assert(folded(b, s) == (b / 128) * 128 + m);
    }
}

} // verus!
