//! Block-scaled dequantization of fp8 and packed fp4 weights.

use vstd::arithmetic::power2::{lemma2_to64, lemma_pow2_adds, pow2};
use vstd::prelude::*;

use crate::blocks::{law_tile_of_element, lemma_row_col, lemma_tile_in_grid, tile_of};
use crate::error::LmError;
use crate::float::{lemma_pack, lemma_product_by_power, F32, INF_REST};
use crate::formats::{
    e8m0_f32, e8m0_to_f32, fp4_f32, fp4_mag, fp8_f32, fp8_is_nan, fp8_mag, lemma_e8m0_value,
    lemma_fp4_value, lemma_fp8_max, lemma_fp8_value,
};

verus! {

/// The block divides the weight into a non-empty grid of whole tiles.
pub open spec fn tiles_evenly(n: usize, m: usize, block: (usize, usize)) -> bool {
    &&& block.0 > 0
    &&& block.1 > 0
    &&& n / block.0 > 0
    &&& m / block.1 > 0
    &&& n % block.0 == 0
    &&& m % block.1 == 0
}

/// The number of tiles.
pub open spec fn tile_count(n: usize, m: usize, block: (usize, usize)) -> int {
    (n / block.0) * (m / block.1)
}

/// Why a scale is rejected for a tiled weight, if it is.
pub open spec fn tiling_error(
    n: usize,
    m: usize,
    block: (usize, usize),
    scale_len: nat,
) -> Option<LmError> {
    if !tiles_evenly(n, m, block) {
        Some(LmError::BlockTiling { bn: block.0, bm: block.1, n, m })
    } else if scale_len != tile_count(n, m, block) {
        Some(LmError::ScaleLen { len: scale_len as usize, tiles: tile_count(n, m, block) as usize })
    } else {
        None
    }
}

/// `out` is a number that `decode` may give for element `p`, times the scale `s`.
pub open spec fn decoded_times<F: Fn(usize) -> F32>(
    decode: F,
    p: int,
    s: F32,
    out: F32,
) -> bool {
    exists|v: F32| #[trigger] call_ensures(decode, (p as usize,), v) && out == v.product(s)
}

/// Checks that the block tiles the weight. A block with an empty side tiles nothing.
pub fn check_tiling(n: usize, m: usize, block: (usize, usize)) -> (r: bool)
    ensures
        r == tiles_evenly(n, m, block),
{
    block.0 > 0 && block.1 > 0 && n / block.0 > 0 && m / block.1 > 0 && n % block.0 == 0 && m
        % block.1 == 0
}

/// Counts the tiles of an evenly tiled weight.
pub fn count_tiles(n: usize, m: usize, block: (usize, usize)) -> (r: usize)
    requires
        block.0 > 0,
        block.1 > 0,
        n * m <= usize::MAX,
    ensures
        r == tile_count(n, m, block),
{
    proof {
        let gn = n / block.0;
        let gm = m / block.1;
        vstd::arithmetic::div_mod::lemma_div_is_ordered_by_denominator(n as int, 1, block.0 as int);
        vstd::arithmetic::div_mod::lemma_div_is_ordered_by_denominator(m as int, 1, block.1 as int);
        vstd::arithmetic::div_mod::lemma_div_basics(n as int);
        vstd::arithmetic::div_mod::lemma_div_basics(m as int);
        assert(0 <= gn * gm <= n * m) by (nonlinear_arith)
            requires
                0 <= gn <= n,
                0 <= gm <= m,
        ;
    }
    (n / block.0) * (m / block.1)
}

/// Validates the tiling of a weight and the number of its scales.
pub fn check_layout(n: usize, m: usize, block: (usize, usize), scale_len: usize) -> (r: Result<
    (),
    LmError,
>)
    requires
        n * m <= usize::MAX,
    ensures
        match tiling_error(n, m, block, scale_len as nat) {
            Some(e) => r == Err::<(), LmError>(e),
            None => r is Ok,
        },
{
    let (bn, bm) = block;
    if !check_tiling(n, m, block) {
        return Err(LmError::BlockTiling { bn, bm, n, m });
    }
    let tiles: usize = count_tiles(n, m, block);
    if scale_len != tiles {
        return Err(LmError::ScaleLen { len: scale_len, tiles });
    }
    Ok(())
}

/// Decodes the scale of every tile.
pub fn decode_scales(scale: &[u8]) -> (r: Vec<F32>)
    ensures
        r@.len() == scale@.len(),
        forall|t: int| 0 <= t < scale@.len() ==> #[trigger] r@[t] == e8m0_f32(scale@[t]),
{
    let mut r: Vec<F32> = Vec::with_capacity(scale.len());
    let mut t: usize = 0;
    while t < scale.len()
        invariant
            t <= scale@.len(),
            r@.len() == t,
            forall|a: int| 0 <= a < t ==> #[trigger] r@[a] == e8m0_f32(scale@[a]),
        decreases scale@.len() - t,
    {
        r.push(e8m0_to_f32(scale[t]));
        t = t + 1;
    }
    r
}

/// Dequantizes row `i`. Rows do not depend on each other.
pub fn dequantize_row<F: Fn(usize) -> F32>(
    i: usize,
    n: usize,
    m: usize,
    block: (usize, usize),
    scales: &[F32],
    decode: &F,
) -> (row: Vec<F32>)
    requires
        i < n,
        n * m <= usize::MAX,
        tiles_evenly(n, m, block),
        scales@.len() == tile_count(n, m, block),
        forall|p: usize| p < n * m ==> #[trigger] call_requires(*decode, (p,)),
    ensures
        row@.len() == m,
        forall|j: int|
            0 <= j < m ==> decoded_times(
                *decode,
                i * m + j,
                scales@[tile_of(i * m + j, m as int, block.0 as int, block.1 as int)],
                #[trigger] row@[j],
            ),
        forall|j: int|
            0 <= j < m ==> decoded_times(
                *decode,
                i * m + j,
                scales@[(i as int / block.0 as int) * (m as int / block.1 as int) + j
                    / block.1 as int],
                #[trigger] row@[j],
            ),
{
    let (bn, bm) = block;
    let gm: usize = m / bm;
    let mut row: Vec<F32> = Vec::with_capacity(m);
    let mut j: usize = 0;
    while j < m
        invariant
            j <= m,
            i < n,
            n * m <= usize::MAX,
            block == (bn, bm),
            bn > 0,
            bm > 0,
            gm == m / bm,
            tiles_evenly(n, m, block),
            scales@.len() == tile_count(n, m, block),
            forall|p: usize| p < n * m ==> #[trigger] call_requires(*decode, (p,)),
            row@.len() == j,
            forall|a: int|
                0 <= a < j ==> decoded_times(
                    *decode,
                    i * m + a,
                    scales@[tile_of(i * m + a, m as int, bn as int, bm as int)],
                    #[trigger] row@[a],
                ),
        decreases m - j,
    {
        proof {
            lemma_row_col(i as int, j as int, n as int, m as int);
            lemma_tile_in_grid(i * m + j, n as int, m as int, bn as int, bm as int);
        }
        let tiles: usize = scales.len();
        let t: usize = (i / bn) * gm + j / bm;
        let p: usize = i * m + j;
        let v: F32 = decode(p);
        let out: F32 = v.times(scales[t]);
        proof {
            assert(call_ensures(*decode, (p,), v));
        }
        row.push(out);
        j = j + 1;
    }
    proof {
        assert forall|j: int| 0 <= j < m implies decoded_times(
            *decode,
            i * m + j,
            scales@[(i as int / bn as int) * (m as int / bm as int) + j / bm as int],
            #[trigger] row@[j],
        ) by {
            lemma_row_col(i as int, j, n as int, m as int);
        }
    }
    row
}

/// Dequantizes a whole weight: validates the tiling and the scale layout, decodes
/// every tile's scale once, and scales `decode(p)` for every element `p` by its
/// tile's scale.
pub fn dequantize_block_scale<F: Fn(usize) -> F32>(
    n: usize,
    m: usize,
    block: (usize, usize),
    scale: &[u8],
    decode: F,
) -> (r: Result<Vec<F32>, LmError>)
    requires
        n * m <= usize::MAX,
        tiling_error(n, m, block, scale@.len()) is None ==> forall|p: usize|
            p < n * m ==> #[trigger] call_requires(decode, (p,)),
    ensures
        match tiling_error(n, m, block, scale@.len()) {
            Some(e) => r == Err::<Vec<F32>, LmError>(e),
            None => r is Ok && r->Ok_0@.len() == n * m && forall|p: int|
                0 <= p < n * m ==> decoded_times(
                    decode,
                    p,
                    e8m0_f32(scale@[tile_of(p, m as int, block.0 as int, block.1 as int)]),
                    #[trigger] r->Ok_0@[p],
                ),
        },
{
    let (bn, bm) = block;
    match check_layout(n, m, block, scale.len()) {
        Ok(()) => {},
        Err(e) => {
            return Err(e);
        },
    }
    let scales: Vec<F32> = decode_scales(scale);
    let mut out: Vec<F32> = Vec::with_capacity(n * m);
    let mut i: usize = 0;
    while i < n
        invariant
            i <= n,
            n * m <= usize::MAX,
            block == (bn, bm),
            bn > 0,
            bm > 0,
            tiles_evenly(n, m, block),
            scale@.len() == tile_count(n, m, block),
            scales@.len() == scale@.len(),
            forall|t: int| 0 <= t < scale@.len() ==> #[trigger] scales@[t] == e8m0_f32(scale@[t]),
            forall|p: usize| p < n * m ==> #[trigger] call_requires(decode, (p,)),
            out@.len() == i * m,
            forall|p: int|
                0 <= p < i * m ==> decoded_times(
                    decode,
                    p,
                    e8m0_f32(scale@[tile_of(p, m as int, bn as int, bm as int)]),
                    #[trigger] out@[p],
                ),
        decreases n - i,
    {
        let mut row: Vec<F32> = dequantize_row(i, n, m, block, scales.as_slice(), &decode);
        let ghost before = out@;
        let ghost added = row@;
        out.append(&mut row);
        proof {
            assert(i * m + m == (i + 1) * m) by (nonlinear_arith);
            assert((i + 1) * m <= n * m) by (nonlinear_arith)
                requires
                    i + 1 <= n,
                    m >= 0,
            ;
            assert forall|p: int| 0 <= p < (i + 1) * m implies decoded_times(
                decode,
                p,
                e8m0_f32(scale@[tile_of(p, m as int, bn as int, bm as int)]),
                #[trigger] out@[p],
            ) by {
                if p < i * m {
                    assert(out@[p] == before[p]);
                } else {
                    let j = p - i * m;
                    assert(out@[p] == added[j]);
                    lemma_tile_in_grid(p, n as int, m as int, bn as int, bm as int);
                }
            }
        }
        i = i + 1;
    }
    Ok(out)
}

/// Dequantizing an fp8 weight is exact: `fp8 * 2^(s - 127)` is held without
/// rounding, or is infinite where it reaches `2^128`.
pub proof fn law_fp8_dequant_exact(b: u8, s: u8)
    requires
        !fp8_is_nan(b),
        s < 255,
    ensures
        ({
            let out = fp8_f32(b).product(e8m0_f32(s));
            let mag = fp8_mag((b % 128) as nat) * pow2((s + 13) as nat);
            &&& mag < pow2(277) ==> out.is_finite() && out.mag() == mag && out.neg() == (b >= 128)
            &&& mag >= pow2(277) ==> out.is_inf() && out.neg() == (b >= 128)
        }),
{
    let m = (b % 128) as nat;
    lemma_fp8_value(b);
    lemma_e8m0_value(s);
    let f = fp8_mag(m);
    let p140 = pow2(140);
    let ps = pow2((s + 22) as nat);
    let p149 = pow2(149);
    let pt = pow2((s + 13) as nat);
    lemma_pow2_adds(140, (s + 22) as nat);
    lemma_pow2_adds((s + 13) as nat, 149);
    assert((f * p140) * ps == (f * pt) * p149) by (nonlinear_arith)
        requires
            p140 * ps == pt * p149,
    ;
    lemma_fp8_max();
    lemma_product_by_power(fp8_f32(b), e8m0_f32(s), f, (s + 13) as nat);
    lemma_pack(b >= 128, INF_REST as nat);
}

/// Dequantizing an fp4 weight is exact in the same sense.
pub proof fn law_fp4_dequant_exact(nib: u8, s: u8)
    requires
        s < 255,
    ensures
        ({
            let out = fp4_f32(nib).product(e8m0_f32(s));
            let mag = fp4_mag((nib % 8) as nat) * pow2((s + 21) as nat);
            &&& mag < pow2(277) ==> out.is_finite() && out.mag() == mag && out.neg() == (nib % 16
                >= 8)
            &&& mag >= pow2(277) ==> out.is_inf() && out.neg() == (nib % 16 >= 8)
        }),
{
    let m = (nib % 8) as nat;
    lemma_fp4_value(nib);
    lemma_e8m0_value(s);
    let f = fp4_mag(m);
    let p148 = pow2(148);
    let ps = pow2((s + 22) as nat);
    let p149 = pow2(149);
    let pt = pow2((s + 21) as nat);
    lemma_pow2_adds(148, (s + 22) as nat);
    lemma_pow2_adds((s + 21) as nat, 149);
    assert((f * p148) * ps == (f * pt) * p149) by (nonlinear_arith)
        requires
            p148 * ps == pt * p149,
    ;
    lemma2_to64();
    assert(f <= 12) by {
        assert(pow2(0) == 1 && pow2(1) == 2 && pow2(2) == 4);
        assert(m / 2 <= 3);
        if m / 2 > 0 {
            let q = pow2((m / 2 - 1) as nat);
            assert(q <= 4);
            assert((2 + m % 2) * q <= 12) by (nonlinear_arith)
                requires
                    m % 2 <= 1,
                    q <= 4,
            ;
        }
    }
    lemma_product_by_power(fp4_f32(nib), e8m0_f32(s), f, (s + 21) as nat);
    lemma_pack(nib % 16 >= 8, INF_REST as nat);
}

/// A weight of `gn` x `gm` whole tiles is accepted with exactly one scale per tile.
pub proof fn law_whole_tiles_are_accepted(
    n: usize,
    m: usize,
    block: (usize, usize),
    gn: nat,
    gm: nat,
    scale_len: nat,
)
    requires
        gn > 0,
        gm > 0,
        block.0 > 0,
        block.1 > 0,
        n == gn * block.0,
        m == gm * block.1,
        n * m <= usize::MAX,
        scale_len <= usize::MAX,
    ensures
        scale_len == gn * gm ==> tiling_error(n, m, block, scale_len) is None,
        scale_len != gn * gm ==> tiling_error(n, m, block, scale_len) == Some(
            LmError::ScaleLen { len: scale_len as usize, tiles: (gn * gm) as usize },
        ),
{
    vstd::arithmetic::div_mod::lemma_fundamental_div_mod_converse(
        n as int,
        block.0 as int,
        gn as int,
        0,
    );
    vstd::arithmetic::div_mod::lemma_fundamental_div_mod_converse(
        m as int,
        block.1 as int,
        gm as int,
        0,
    );
}

/// A weight that is empty, or that the block leaves a remainder of, is rejected for its
/// tiling, however many scales there are.
pub proof fn law_other_tilings_are_rejected(
    n: usize,
    m: usize,
    block: (usize, usize),
    scale_len: nat,
)
    requires
        n == 0 || m == 0 || block.0 == 0 || block.1 == 0 || n as int % block.0 as int != 0
            || m as int % block.1 as int != 0,
    ensures
        tiling_error(n, m, block, scale_len) == Some(
            LmError::BlockTiling { bn: block.0, bm: block.1, n, m },
        ),
{
    if block.0 > 0 && n == 0 {
        assert(0int / block.0 as int == 0) by (nonlinear_arith)
            requires
                block.0 > 0,
        ;
    }
    if block.1 > 0 && m == 0 {
        assert(0int / block.1 as int == 0) by (nonlinear_arith)
            requires
                block.1 > 0,
        ;
    }
}

/// Every element of a dequantized row is its decoded number times the scale in the row
/// and the column of the grid that its own row and column fall in.
pub proof fn law_row_scales<F: Fn(usize) -> F32>(
    decode: F,
    f: spec_fn(int) -> F32,
    i: int,
    j: int,
    n: usize,
    m: usize,
    block: (usize, usize),
    scales: Seq<F32>,
    row: Seq<F32>,
    a: int,
    c: int,
)
    requires
        tiles_evenly(n, m, block),
        n * m <= usize::MAX,
        0 <= i < n,
        0 <= j < m,
        a * block.0 <= i < (a + 1) * block.0,
        c * block.1 <= j < (c + 1) * block.1,
        forall|p: usize, v: F32| #[trigger] call_ensures(decode, (p,), v) ==> v == f(p as int),
        decoded_times(
            decode,
            i * m + j,
            scales[tile_of(i * m + j, m as int, block.0 as int, block.1 as int)],
            row[j],
        ),
    ensures
        row[j] == f(i * m + j).product(scales[a * (m as int / block.1 as int) + c]),
{
    law_tile_of_element(i, j, m as int, block.0 as int, block.1 as int, a, c);
    lemma_row_col(i, j, n as int, m as int);
}

} // verus!
