//! Quantizing, dequantizing and planning products with quantized weights.

use vstd::arithmetic::div_mod::lemma_fundamental_div_mod;
use vstd::arithmetic::power2::{lemma_pow2_adds, pow2};
use vstd::prelude::*;

use crate::blocks::{elem_count, law_tile_of_element, lemma_row_col};
use crate::deepseek_v4::fp8_gemm::{
    block_max, block_of, fold_fp8_block_scale, folded, fp4_to_fp8, fp8_grouped_linear, fp8_linear,
    law_alpha_undoes_the_scales, law_block_max_bounds, law_block_of_element,
    law_block_scale_fills_the_range, law_max_bounds, law_scale_target, max_rest, quantize_fp8,
    quantize_fp8_block, view_byte_offset, Fp8Weight, GemmConfig, GroupedPlan, LinearPlan,
    MatrixLayout,
};
use crate::deepseek_v4::quantized as named;
use crate::error::LmError;
use crate::float::{f32_mag, law_quotient_is_nearest, lemma_mag_increases, F32};
use crate::formats::{e8m0_f32, fp4_f32, fp4_reserved_f32, fp8_f32, fp8_of};
use crate::indices::count_blocks;
use crate::quantized_deepseek_v4 as flat;

verus! {

/// The scale of an array follows from its largest magnitude: where number `q` is finite, not
/// below `1e-30` in magnitude, and no other is larger, the scale is the number nearest to
/// 448 over that magnitude.
pub proof fn law_scale_follows_the_largest(vals: &[F32], r: (Vec<u8>, F32), q: int, other: nat)
    requires
        call_ensures(quantize_fp8, (vals,), r),
        0 <= q < vals@.len(),
        0x0DA2_4260 <= vals@[q].rest() < 0x7F80_0000,
        forall|p: int|
            0 <= p < vals@.len() && !(#[trigger] vals@[p]).is_nan() ==> vals@[p].rest()
                <= vals@[q].rest(),
        other <= 0x7F80_0000,
    ensures
        r.0@.len() == vals@.len(),
        !r.1.is_nan(),
        !r.1.neg(),
        ({
            let near = 448 * pow2(298) - vals@[q].mag() * r.1.mag();
            let far = 448 * pow2(298) - vals@[q].mag() * f32_mag(other);
            &&& -near <= far || -near <= -far
            &&& near <= far || near <= -far
        }),
{
    let top = vals@[q].rest();
    law_max_bounds(vals@, vals@.len());
    assert(!vals@[q].is_nan());
    let max = max_rest(vals@, vals@.len());
    if max > 0x0DA2_4260 {
        let p = choose|p: int| 0 <= p < vals@.len() && (#[trigger] vals@[p]).rest() == max;
        assert(!vals@[p].is_nan());
    }
    assert(max == top);
    let big = F32 { bits: 0x43E0_0000 };
    let m = F32 { bits: max as u32 };
    law_scale_target(0);
    assert(m.rest() == top && m.mag() == vals@[q].mag());
    lemma_mag_increases(0, top);
    lemma_pow2_adds(149, 149);
    let p149 = pow2(149);
    assert((448 * p149) * p149 == 448 * (p149 * p149)) by (nonlinear_arith);
    law_quotient_is_nearest(big, m, other);
}

/// Every byte is the encoding of its own number times the scale, so equal numbers have
/// equal bytes and every array of tiny numbers has the scale of `1e-30`.
pub proof fn law_bytes_encode_the_scaled_numbers(vals: &[F32], r: (Vec<u8>, F32), p: int)
    requires
        call_ensures(quantize_fp8, (vals,), r),
        0 <= p < vals@.len(),
    ensures
        r.0@[p] == fp8_of(vals@[p].product(r.1)),
        (forall|a: int| 0 <= a < vals@.len() ==> (#[trigger] vals@[a]).is_nan() || vals@[a].rest()
            <= 0x0DA2_4260) ==> r.1 == (F32 { bits: 0x43E0_0000 }).quotient(
            F32 { bits: 0x0DA2_4260 },
        ),
{
    law_max_bounds(vals@, vals@.len());
    if forall|a: int| 0 <= a < vals@.len() ==> (#[trigger] vals@[a]).is_nan() || vals@[a].rest()
        <= 0x0DA2_4260 {
        let max = max_rest(vals@, vals@.len());
        if max > 0x0DA2_4260 {
            let a = choose|a: int| 0 <= a < vals@.len() && (#[trigger] vals@[a]).rest() == max;
            assert(vals@[a].is_nan() || vals@[a].rest() <= 0x0DA2_4260);
        }
    }
}

/// Quantizing by column blocks: number `(i, j)` is encoded with the scale of the block that
/// covers column `j`. That scale is a power of two; it takes no finite number of the block
/// beyond 448, and the largest of them, unless below `1e-30`, above 224.
pub proof fn law_blocks_fill_the_range(
    vals: &[F32],
    m: usize,
    k: usize,
    bk: usize,
    r: (Vec<u8>, Vec<F32>),
    i: int,
    j: int,
    b: int,
)
    requires
        bk > 0,
        m * k <= vals@.len(),
        call_ensures(quantize_fp8_block, (vals, m, k, bk), r),
        0 <= i < m,
        0 <= j < k,
        b * bk <= j < (b + 1) * bk,
        forall|p: int|
            0 <= p < m * k && block_of(p, k as int, bk as int) == b ==> (
            #[trigger] vals@[p]).is_finite(),
    ensures
        0 <= i * k + j < m * k,
        r.0@.len() == m * k,
        0 <= b < r.1@.len(),
        r.0@[i * k + j] == fp8_of(vals@[i * k + j].product(r.1@[b])),
        !r.1@[b].neg(),
        exists|e: nat| r.1@[b].mag() == #[trigger] pow2(e),
        vals@[i * k + j].mag() * r.1@[b].mag() <= 448 * pow2(298),
        vals@[i * k + j].rest() >= 0x0DA2_4260 && (forall|p: int|
            0 <= p < m * k && block_of(p, k as int, bk as int) == b ==> (
            #[trigger] vals@[p]).rest() <= vals@[i * k + j].rest()) ==> 224 * pow2(298)
            < vals@[i * k + j].mag() * r.1@[b].mag(),
{
    let p = i * k + j;
    lemma_row_col(i, j, m as int, k as int);
    law_block_of_element(i, j, k as int, bk as int, b);
    let kk = k as int;
    let w = bk as int;
    assert(b >= 0) by (nonlinear_arith)
        requires
            0 <= j,
            j < (b + 1) * w,
            w > 0,
    ;
    lemma_fundamental_div_mod(kk + w - 1, w);
    let n = (kk + w - 1) / w;
    assert(b < n) by (nonlinear_arith)
        requires
            b * w <= j,
            j < kk,
            kk + w - 1 == w * n + (kk + w - 1) % w,
            (kk + w - 1) % w < w,
            w > 0,
    ;
    let total = (m * k) as nat;
    let top = block_max(vals@, kk, w, b, total);
    law_block_max_bounds(vals@, kk, w, b, total);
    if top == 0x7F80_0000 {
        let a = choose|a: int|
            0 <= a < total && block_of(a, kk, w) == b && (#[trigger] vals@[a]).rest() == top;
        assert(vals@[a].is_finite());
    }
    assert(top < 0x7F80_0000);
    law_block_scale_fills_the_range(top, r.1@[b]);
    assert(vals@[p].is_finite());
    assert(vals@[p].rest() <= top);
    if vals@[p].rest() < top {
        lemma_mag_increases(vals@[p].rest(), top);
    }
    let x = vals@[p].mag();
    let y = f32_mag(top);
    let s = r.1@[b].mag();
    assert(x * s <= y * s) by (nonlinear_arith)
        requires
            x <= y,
    ;
    if vals@[p].rest() >= 0x0DA2_4260 && (forall|a: int|
        0 <= a < m * k && block_of(a, k as int, bk as int) == b ==> (#[trigger] vals@[a]).rest()
            <= vals@[p].rest()) {
        if top > 0x0DA2_4260 {
            let a = choose|a: int|
                0 <= a < total && block_of(a, kk, w) == b && (#[trigger] vals@[a]).rest() == top;
            assert(vals@[a].rest() <= vals@[p].rest());
        }
        assert(top == vals@[p].rest());
    }
}

/// A planned projection: the activation is taken row by row; column `j` belongs to the slice
/// of 128 columns that covers it and is encoded with that slice's scale; the slice undoes
/// its scale and the weight's; the result has the rows of the weight in place of the last
/// dimension.
pub proof fn law_projection_plan(
    vals: &[F32],
    dims: &[usize],
    w: &Fp8Weight,
    r: Result<LinearPlan, LmError>,
    i: int,
    j: int,
    other: nat,
)
    requires
        dims@.len() > 0,
        dims@.last() > 0,
        vals@.len() == elem_count(dims@),
        call_ensures(fp8_linear, (vals, dims, w), r),
        0 <= i < elem_count(dims@.drop_last()),
        0 <= j < dims@.last(),
        other <= 0x7F80_0000,
    ensures
        r is Ok <==> w.cols >= dims@.last(),
        r is Err ==> r == Err::<LinearPlan, LmError>(
            LmError::InputWidth { cols: w.cols, inp: dims@.last() },
        ),
        r is Ok ==> ({
            let plan = r->Ok_0;
            let b = j / 128;
            let p = i * dims@.last() + j;
            let both = plan.scales@[b].product(w.scale);
            let alpha = plan.slices@[b].alpha;
            let near = pow2(298) - both.mag() * alpha.mag();
            let far = pow2(298) - both.mag() * f32_mag(other);
            &&& plan.lead * plan.inp == vals@.len()
            &&& plan.inp == dims@.last()
            &&& plan.out_dims@.len() == dims@.len()
            &&& plan.out_dims@.last() == w.rows
            &&& plan.out_dims@.drop_last() == dims@.drop_last()
            &&& b < plan.slices@.len()
            &&& plan.slices@[b].start <= j < plan.slices@[b].start + plan.slices@[b].len
            &&& plan.slices@[b].len <= 128
            &&& plan.slices@[b].start + plan.slices@[b].len <= plan.inp
            &&& plan.act@[p] == fp8_of(vals@[p].product(plan.scales@[b]))
            &&& both.is_finite() && both.mag() > 0 ==> (-near <= far || -near <= -far) && (near
                <= far || near <= -far)
        }),
{
    if r is Ok {
        let plan = r->Ok_0;
        let b = j / 128;
        let inp = dims@.last() as int;
        lemma_row_col(i, j, elem_count(dims@.drop_last()) as int, inp);
        law_block_of_element(i, j, inp, 128, b);
        let both = plan.scales@[b].product(w.scale);
        if both.is_finite() && both.mag() > 0 {
            law_alpha_undoes_the_scales(plan.scales@[b], w.scale, other);
        }
        assert(plan.out_dims@.drop_last() =~= dims@.drop_last());
    }
}

/// A planned grouped projection: the groups take equal runs of weight rows, back to back
/// from the first; group and row of the group are the last two dimensions of the result.
pub proof fn law_grouped_projection_plan(
    dims: &[usize],
    w_dims: (usize, usize),
    n_groups: usize,
    r: Result<GroupedPlan, LmError>,
    g: int,
)
    requires
        dims@.len() >= 2,
        n_groups > 0,
        call_ensures(fp8_grouped_linear, (dims, w_dims, n_groups), r),
        r is Ok,
        0 <= g < n_groups,
    ensures
        r->Ok_0.n_groups == n_groups,
        r->Ok_0.in_per_group == w_dims.1,
        r->Ok_0.batch * n_groups * w_dims.1 == elem_count(dims@),
        r->Ok_0.out_per_group * n_groups <= w_dims.0,
        w_dims.0 < r->Ok_0.out_per_group * n_groups + n_groups,
        r->Ok_0.row_starts@.len() == n_groups,
        r->Ok_0.row_starts@[0] == 0,
        g + 1 < n_groups ==> r->Ok_0.row_starts@[g + 1] == r->Ok_0.row_starts@[g]
            + r->Ok_0.out_per_group,
        r->Ok_0.row_starts@[g] + r->Ok_0.out_per_group <= w_dims.0,
        r->Ok_0.out_dims@.len() == dims@.len(),
        r->Ok_0.out_dims@[dims@.len() - 2] == n_groups,
        r->Ok_0.out_dims@[dims@.len() - 1] == r->Ok_0.out_per_group,
        forall|d: int| 0 <= d < dims@.len() - 2 ==> #[trigger] r->Ok_0.out_dims@[d] == dims@[d],
{
    let per = w_dims.0 as int / n_groups as int;
    let n = n_groups as int;
    lemma_fundamental_div_mod(w_dims.0 as int, n);
    assert(per * n == n * per) by (nonlinear_arith);
    assert(0 * per == 0);
    assert((g + 1) * per == g * per + per) by (nonlinear_arith);
    assert(r->Ok_0.row_starts@[0] == 0 * per);
    assert(r->Ok_0.row_starts@[g] == g * per);
    if g + 1 < n_groups {
        assert(r->Ok_0.row_starts@[g + 1] == (g + 1) * per);
    }
}

/// The operands of a linear product fit: an `(m, inp)` activation, a weight that is stored
/// as `(out, inp)` and read transposed, and an `(m, out)` result, all row by row without
/// gaps.
pub proof fn law_operands_fit(
    m: usize,
    out: usize,
    inp: usize,
    cfg: GemmConfig,
    r: (MatrixLayout, MatrixLayout, MatrixLayout),
)
    requires
        out <= i64::MAX,
        inp <= i64::MAX,
        call_ensures(GemmConfig::linear, (m, out, inp, true), cfg),
        call_ensures(GemmConfig::layouts, (&cfg,), r),
    ensures
        cfg.transb && !cfg.transa,
        r.0.rows == m && r.0.cols == inp,
        r.1.rows == out && r.1.cols == inp,
        r.0.cols == r.1.cols,
        r.2.rows == r.0.rows,
        r.2.cols == r.1.rows,
        r.0.ld == r.0.cols,
        r.1.ld == r.1.cols,
        r.2.ld == r.2.cols,
        cfg.k == r.0.cols,
        cfg.m == r.2.rows,
        cfg.n == r.2.cols,
{
}

/// Without the transpose the right operand lies as it is multiplied: one row for every
/// column of the left one.
pub proof fn law_plain_operands_fit(
    cfg: GemmConfig,
    r: (MatrixLayout, MatrixLayout, MatrixLayout),
)
    requires
        call_ensures(GemmConfig::layouts, (&cfg,), r),
    ensures
        !cfg.transb ==> r.1.rows == r.0.cols && r.1.cols == r.2.cols,
        cfg.transb ==> r.1.cols == r.0.cols && r.1.rows == r.2.cols,
        r.0.rows == r.2.rows,
        r.0.ld == cfg.lda && r.1.ld == cfg.ldb && r.2.ld == cfg.ldc,
        r.0.cols == cfg.k && r.2.rows == cfg.m && r.2.cols == cfg.n,
{
}

/// Byte offsets are proportional: elements that lie `d` apart lie `d` elements' bytes apart,
/// and the first lies at the start.
pub proof fn law_byte_offsets(a: usize, d: usize, size: usize, x: usize, y: usize, z: usize)
    requires
        a + d <= usize::MAX,
        (a + d) * size <= usize::MAX,
        call_ensures(view_byte_offset, (a, size), x),
        call_ensures(view_byte_offset, ((a + d) as usize, size), y),
        call_ensures(view_byte_offset, (0, size), z),
    ensures
        y - x == d * size,
        z == 0,
{
    assert((a + d) * size == a * size + d * size) by (nonlinear_arith);
}

/// Blocks cover the columns without a spare one.
pub proof fn law_blocks_cover(k: usize, bk: usize, r: usize)
    requires
        bk > 0,
        call_ensures(count_blocks, (k, bk), r),
    ensures
        r * bk >= k,
        r > 0 ==> (r - 1) * bk < k,
{
    let n = (k + bk - 1) / bk as int;
    lemma_fundamental_div_mod(k + bk - 1, bk as int);
    let d = (k + bk - 1) % bk as int;
    assert(n * bk >= k && (n - 1) * bk < k) by (nonlinear_arith)
        requires
            k + bk - 1 == bk * n + d,
            0 <= d < bk,
    ;
}

/// A dequantized fp8 weight: element `(i, j)` is its byte times the scale in row `a` and
/// column `c` of the grid, where tile `(a, c)` covers the element. Both readers agree.
pub proof fn law_fp8_elements(
    weight: &[u8],
    scale: &[u8],
    n: usize,
    m: usize,
    block: (usize, usize),
    by_name: Result<Vec<F32>, LmError>,
    by_flat: Result<Vec<F32>, LmError>,
    i: int,
    j: int,
    a: int,
    c: int,
)
    requires
        n * m <= usize::MAX,
        call_ensures(named::dequantize_fp8_block_scale, (weight, scale, n, m, block), by_name),
        call_ensures(flat::dequantize_fp8_block_scale, (weight, scale, n, m, block), by_flat),
        block.0 > 0,
        block.1 > 0,
        n as int % block.0 as int == 0,
        m as int % block.1 as int == 0,
        weight@.len() == n * m,
        scale@.len() == (n as int / block.0 as int) * (m as int / block.1 as int),
        0 <= i < n,
        0 <= j < m,
        a * block.0 <= i < (a + 1) * block.0,
        c * block.1 <= j < (c + 1) * block.1,
    ensures
        by_name is Ok,
        by_flat is Ok,
        by_name->Ok_0@.len() == n * m,
        by_flat->Ok_0@ == by_name->Ok_0@,
        by_name->Ok_0@[i * m + j] == fp8_f32(weight@[i * m + j]).product(
            e8m0_f32(scale@[a * (m as int / block.1 as int) + c]),
        ),
{
    lemma_row_col(i, j, n as int, m as int);
    law_tile_of_element(i, j, m as int, block.0 as int, block.1 as int, a, c);
    lemma_whole(n as int, block.0 as int);
    lemma_whole(m as int, block.1 as int);
    lemma_few_tiles(n as int / block.0 as int, m as int / block.1 as int, n as int, m as int);
    named::law_fp8_sizes(
        n,
        m,
        block,
        (n / block.0) as nat,
        (m / block.1) as nat,
        weight@.len(),
        scale@.len(),
    );
    flat::law_fp8_sizes(
        n,
        m,
        block,
        (n / block.0) as nat,
        (m / block.1) as nat,
        weight@.len(),
        scale@.len(),
    );
    assert(by_flat->Ok_0@ =~= by_name->Ok_0@);
}

proof fn lemma_whole(n: int, b: int)
    requires
        n > 0,
        b > 0,
        n % b == 0,
    ensures
        n / b > 0,
        n == (n / b) * b,
        n / b <= n,
{
    lemma_fundamental_div_mod(n, b);
    let q = n / b;
    assert(q * b == b * q) by (nonlinear_arith);
    assert(q > 0) by (nonlinear_arith)
        requires
            n == b * q,
            n > 0,
            b > 0,
    ;
    assert(q <= n) by (nonlinear_arith)
        requires
            n == b * q,
            q > 0,
            b > 0,
    ;
}

proof fn lemma_few_tiles(a: int, b: int, n: int, m: int)
    requires
        0 <= a <= n,
        0 <= b <= m,
    ensures
        a * b <= n * m,
{
    assert(a * b <= n * m) by (nonlinear_arith)
        requires
            0 <= a <= n,
            0 <= b <= m,
    ;
}

/// A dequantized fp4 weight: the elements in columns `2 * h` and `2 * h + 1` of a row come from
/// one byte, low half first, each times the scale of the tile that covers it.
pub proof fn law_fp4_elements(
    packed: &[u8],
    scale: &[u8],
    n: usize,
    m: usize,
    block: (usize, usize),
    by_name: Result<Vec<F32>, LmError>,
    by_flat: Result<Vec<F32>, LmError>,
    i: int,
    h: int,
    a: int,
    c: int,
)
    requires
        n * m <= usize::MAX,
        m % 2 == 0,
        call_ensures(named::dequantize_fp4_block_scale, (packed, scale, n, m, block), by_name),
        call_ensures(flat::dequantize_fp4_block_scale, (packed, scale, n, m, block), by_flat),
        block.0 > 0,
        block.1 > 0,
        n as int % block.0 as int == 0,
        m as int % block.1 as int == 0,
        2 * packed@.len() == n * m,
        scale@.len() == (n as int / block.0 as int) * (m as int / block.1 as int),
        0 <= i < n,
        0 <= 2 * h,
        2 * h + 1 < m,
        a * block.0 <= i < (a + 1) * block.0,
        c * block.1 <= 2 * h,
        2 * h + 1 < (c + 1) * block.1,
    ensures
        by_name is Ok,
        by_flat is Ok,
        ({
            let byte = packed@[i * (m as int / 2) + h];
            let s = e8m0_f32(scale@[a * (m as int / block.1 as int) + c]);
            let p = i * m + 2 * h;
            &&& by_flat->Ok_0@[p] == fp4_f32(byte % 16).product(s)
            &&& by_flat->Ok_0@[p + 1] == fp4_f32(byte / 16).product(s)
            &&& by_name->Ok_0@[p] == fp4_reserved_f32(byte % 16).product(s)
            &&& by_name->Ok_0@[p + 1] == fp4_reserved_f32(byte / 16).product(s)
        }),
{
    let mm = m as int;
    let half = mm / 2;
    lemma_row_col(i, 2 * h, n as int, mm);
    lemma_row_col(i, 2 * h + 1, n as int, mm);
    law_tile_of_element(i, 2 * h, mm, block.0 as int, block.1 as int, a, c);
    law_tile_of_element(i, 2 * h + 1, mm, block.0 as int, block.1 as int, a, c);
    lemma_whole(n as int, block.0 as int);
    lemma_whole(mm, block.1 as int);
    lemma_few_tiles(n as int / block.0 as int, mm / block.1 as int, n as int, mm);
    assert(mm == 2 * half);
    assert(i * mm == 2 * (i * half)) by (nonlinear_arith)
        requires
            mm == 2 * half,
    ;
    let p = i * mm + 2 * h;
    assert(p / 2 == i * half + h && p % 2 == 0);
    assert((p + 1) / 2 == i * half + h && (p + 1) % 2 == 1);
    named::law_fp4_sizes(
        n,
        m,
        block,
        (n / block.0) as nat,
        (m / block.1) as nat,
        packed@.len(),
        scale@.len(),
    );
    flat::law_fp4_sizes(
        n,
        m,
        block,
        (n / block.0) as nat,
        (m / block.1) as nat,
        packed@.len(),
        scale@.len(),
    );
    assert(by_flat->Ok_0@[p] == fp4_f32(packed@[p / 2] % 16).product(
        e8m0_f32(scale@[a * (m as int / block.1 as int) + c]),
    ));
    assert(by_flat->Ok_0@[p + 1] == fp4_f32(packed@[(p + 1) / 2] / 16).product(
        e8m0_f32(scale@[a * (m as int / block.1 as int) + c]),
    ));
    assert(by_name->Ok_0@[p] == fp4_reserved_f32(packed@[p / 2] % 16).product(
        e8m0_f32(scale@[a * (m as int / block.1 as int) + c]),
    ));
    assert(by_name->Ok_0@[p + 1] == fp4_reserved_f32(packed@[(p + 1) / 2] / 16).product(
        e8m0_f32(scale@[a * (m as int / block.1 as int) + c]),
    ));
}

/// A folded weight: byte `(i, j)` is folded with the scale of the tile that covers it.
pub proof fn law_folded_elements(
    w8: &[u8],
    scale: &[u8],
    n: usize,
    k: usize,
    bn: usize,
    bk: usize,
    out: Vec<u8>,
    i: int,
    j: int,
    a: int,
    c: int,
)
    requires
        call_ensures(fold_fp8_block_scale, (w8, scale, n, k, bn, bk), out),
        bn > 0,
        bk > 0,
        0 <= i < n,
        0 <= j < k,
        a * bn <= i < (a + 1) * bn,
        c * bk <= j < (c + 1) * bk,
    ensures
        out@.len() == n * k,
        out@[i * k + j] == folded(w8@[i * k + j], scale@[a * (k as int / bk as int) + c]),
{
    lemma_row_col(i, j, n as int, k as int);
    law_tile_of_element(i, j, k as int, bn as int, bk as int, a, c);
}

/// Packed fp4 turned into fp8: the elements of byte `h` of row `i` take the scale of their 32
/// columns in that row.
pub proof fn law_repacked_elements(
    wpack: &[u8],
    scale: &[u8],
    n: usize,
    k: usize,
    out: Vec<u8>,
    i: int,
    h: int,
)
    requires
        n * k <= usize::MAX,
        k % 32 == 0,
        call_ensures(fp4_to_fp8, (wpack, scale, n, k), out),
        0 <= i < n,
        0 <= h,
        2 * h + 1 < k,
    ensures
        out@.len() == n * k,
        ({
            let byte = wpack@[i * (k as int / 2) + h];
            let s = e8m0_f32(scale@[i * (k as int / 32) + h / 16]);
            let p = i * k + 2 * h;
            &&& out@[p] == fp8_of(fp4_f32(byte % 16).product(s))
            &&& out@[p + 1] == fp8_of(fp4_f32(byte / 16).product(s))
        }),
{
    let kk = k as int;
    let half = kk / 2;
    lemma_row_col(i, 2 * h, n as int, kk);
    lemma_row_col(i, 2 * h + 1, n as int, kk);
    law_tile_of_element(i, 2 * h, kk, 1, 32, i, h / 16);
    law_tile_of_element(i, 2 * h + 1, kk, 1, 32, i, h / 16);
    assert(kk == 2 * half);
    assert(i * kk == 2 * (i * half)) by (nonlinear_arith)
        requires
            kk == 2 * half,
    ;
    let p = i * kk + 2 * h;
    assert(p / 2 == i * half + h && p % 2 == 0);
    assert((p + 1) / 2 == i * half + h && (p + 1) % 2 == 1);
    assert(out@[p] == fp8_of(
        fp4_f32(wpack@[p / 2] % 16).product(e8m0_f32(scale@[i * (kk / 32) + h / 16])),
    ));
    assert(out@[p + 1] == fp8_of(
        fp4_f32(wpack@[(p + 1) / 2] / 16).product(e8m0_f32(scale@[i * (kk / 32) + h / 16])),
    ));
}

/// A quantized weight is its values quantized as one array, with the shape it was given.
pub proof fn law_quantized_weight(
    vals: &[F32],
    out: usize,
    inp: usize,
    w: Fp8Weight,
    r: (Vec<u8>, F32),
)
    requires
        call_ensures(Fp8Weight::from_tensor, (vals, out, inp), w),
        call_ensures(quantize_fp8, (vals,), r),
        vals@.len() == out * inp,
    ensures
        w.rows == out,
        w.cols == inp,
        w.scale == r.1,
        w.bytes@ == r.0@,
{
    assert(w.bytes@ =~= r.0@);
}

} // verus!
