//! Quantization of weights and activations for fp8 products.

use candle_lm::deepseek_v4::fp8_gemm::{
    f32_to_fp8, fold_fp8_block_scale, fp4_to_fp8, fp8_e4m3_to_f32, fp8_grouped_linear, fp8_linear,
    quantize_fp8, quantize_fp8_block, view_byte_offset, Fp8Weight, GemmConfig, MatrixLayout,
};
use candle_lm::error::LmError;
use candle_lm::float::F32;

fn b(v: f32) -> F32 {
    F32 { bits: v.to_bits() }
}

fn f(v: F32) -> f32 {
    f32::from_bits(v.bits)
}

fn dec(x: u8) -> f32 {
    f(fp8_e4m3_to_f32(x))
}

#[test]
fn fp8_round_trips() {
    for x in 0u8..=255 {
        if x % 128 == 127 {
            continue;
        }
        let back = f32_to_fp8(b(dec(x)));
        assert_eq!(dec(back), dec(x), "{x:#04x}");
    }
}

#[test]
fn fp8_rounds_to_the_nearest_and_saturates() {
    assert_eq!(dec(f32_to_fp8(b(1.04))), 1.0);
    assert_eq!(dec(f32_to_fp8(b(1.07))), 1.125);
    assert_eq!(dec(f32_to_fp8(b(-3.1))), -3.0);
    assert_eq!(dec(f32_to_fp8(b(1000.0))), 448.0);
    assert_eq!(dec(f32_to_fp8(b(-1e30))), -448.0);
    assert_eq!(dec(f32_to_fp8(b(f32::INFINITY))), 448.0);
    assert_eq!(f32_to_fp8(b(f32::NAN)), 0);
    assert_eq!(dec(f32_to_fp8(b(1e-20))), 0.0);
}

#[test]
fn folding_shifts_the_exponent() {
    // 1.5 and -2 in a 1 x 2 weight, scaled by 2 and by a quarter.
    let out = fold_fp8_block_scale(&[0x3C, 0xC0], &[128, 125], 1, 2, 1, 1);
    assert_eq!(dec(out[0]), 3.0);
    assert_eq!(dec(out[1]), -0.5);
    // Zero stays zero, and large values are clamped.
    let out = fold_fp8_block_scale(&[0x00, 0x80, 0x7E, 0xFE], &[140], 2, 2, 2, 2);
    assert_eq!(out, vec![0x00, 0x80, 0x7E, 0xFE]);
    // Below the smallest normal value a scale still halves.
    let out = fold_fp8_block_scale(&[0x08], &[126], 1, 1, 1, 1);
    assert_eq!(dec(out[0]), 2f32.powi(-7));
}

#[test]
fn fp4_becomes_fp8_without_loss() {
    let k = 32;
    // All sixteen nibbles in turn, twice.
    let nibs: Vec<u8> = (0..k).map(|i| (i % 16) as u8).collect();
    let packed: Vec<u8> = nibs.chunks(2).map(|p| p[0] | (p[1] << 4)).collect();
    let values = [0.0, 0.5, 1.0, 1.5, 2.0, 3.0, 4.0, 6.0];
    for (scale, factor) in [(129u8, 4.0f32), (127, 1.0), (119, 2f32.powi(-8)), (133, 64.0)] {
        let out = fp4_to_fp8(&packed, &[scale], 1, k);
        for i in 0..k {
            let sign = if i % 16 < 8 { 1.0 } else { -1.0 };
            assert_eq!(dec(out[i]), sign * values[i % 8] * factor, "nibble {i}");
        }
    }
    // Four is 0x48 and six 0x4C.
    assert_eq!(fp4_to_fp8(&[0x66; 16], &[127], 1, k), vec![0x48; 32]);
    assert_eq!(fp4_to_fp8(&[0xFF; 16], &[127], 1, k), vec![0xCC; 32]);
}

#[test]
fn tensor_scale_maps_the_largest_to_the_top() {
    let vals: Vec<F32> = [0.5f32, -2.0, 1.0, 0.0].iter().map(|v| b(*v)).collect();
    let (bytes, scale) = quantize_fp8(&vals);
    assert_eq!(f(scale), 224.0);
    let back: Vec<f32> = bytes.iter().map(|x| dec(*x) / f(scale)).collect();
    assert_eq!(back, vec![0.5, -2.0, 1.0, 0.0]);
    // An empty or zero tensor is scaled from the smallest magnitude.
    let (bytes, scale) = quantize_fp8(&[b(0.0)]);
    assert_eq!(bytes, vec![0]);
    assert_eq!(f(scale), 448.0 / 1e-30);
}

#[test]
fn block_scales_are_powers_of_two() {
    let vals: Vec<F32> = [1.0f32, -3.0, 104.0, 7.0, 0.25, 0.0].iter().map(|v| b(*v)).collect();
    // Two rows of three columns in blocks of two columns.
    let (bytes, scales) = quantize_fp8_block(&vals, 2, 3, 2);
    assert_eq!(scales.len(), 2);
    // Columns 0 and 1 hold at most 7, column 2 at most 104.
    assert_eq!(f(scales[0]), 64.0);
    assert_eq!(f(scales[1]), 4.0);
    for (p, x) in bytes.iter().enumerate() {
        let s = f(scales[(p % 3) / 2]);
        assert_eq!(dec(*x) / s, f(vals[p]), "element {p}");
    }
}

#[test]
fn a_linear_projection_is_cut_into_slices() {
    let inp = 130;
    let vals: Vec<F32> = (0..2 * inp).map(|i| b(if i % inp < 128 { 1.0 } else { 16.0 })).collect();
    let w = Fp8Weight::from_tensor(&vec![b(1.0); 3 * inp], 3, inp);
    assert_eq!(f(w.scale), 448.0);
    let plan = fp8_linear(&vals, &[1, 2, inp], &w).unwrap();
    assert_eq!((plan.lead, plan.inp), (2, inp));
    assert_eq!(plan.out_dims, vec![1, 2, 3]);
    assert_eq!(plan.slices.len(), 2);
    assert_eq!((plan.slices[0].start, plan.slices[0].len), (0, 128));
    assert_eq!((plan.slices[1].start, plan.slices[1].len), (128, 2));
    // 256 is the largest power of two that keeps one within range, and 16 for sixteen.
    assert_eq!(f(plan.scales[0]), 256.0);
    assert_eq!(f(plan.scales[1]), 16.0);
    assert_eq!(f(plan.slices[0].alpha), 1.0 / (256.0 * 448.0));
    assert_eq!(f(plan.slices[1].alpha), 1.0 / (16.0 * 448.0));
    assert_eq!(
        fp8_linear(&vals, &[1, 2, inp], &Fp8Weight::from_tensor(&vec![b(1.0); 6], 3, 2)).err(),
        Some(LmError::InputWidth { cols: 2, inp })
    );
}

#[test]
fn groups_take_their_own_rows() {
    let plan = fp8_grouped_linear(&[2, 5, 4, 8], (12, 8), 4).unwrap();
    assert_eq!(plan.batch, 10);
    assert_eq!((plan.in_per_group, plan.out_per_group), (8, 3));
    assert_eq!(plan.row_starts, vec![0, 3, 6, 9]);
    assert_eq!(plan.out_dims, vec![2, 5, 4, 3]);
    assert_eq!(
        fp8_grouped_linear(&[2, 5, 4, 8], (12, 7), 4).err(),
        Some(LmError::GroupShape { len: 320, expected: 280 })
    );
}

#[test]
fn operands_are_laid_out_by_rows() {
    let cfg = GemmConfig::linear(4, 16, 32, true);
    let (a, w, c) = cfg.layouts();
    assert_eq!(a, MatrixLayout { rows: 4, cols: 32, ld: 32 });
    assert_eq!(w, MatrixLayout { rows: 16, cols: 32, ld: 32 });
    assert_eq!(c, MatrixLayout { rows: 4, cols: 16, ld: 16 });
    let (_, w, _) = GemmConfig::linear(4, 16, 32, false).layouts();
    assert_eq!(w, MatrixLayout { rows: 32, cols: 16, ld: 32 });
    assert_eq!(view_byte_offset(7, 2), 14);
}

#[test]
fn products_and_quotients_round_as_the_machine_does() {
    let mut s = 1u64;
    let mut next = || {
        s = s.wrapping_mul(6364136223846793005).wrapping_add(1442695040888963407);
        f32::from_bits((s >> 32) as u32)
    };
    for _ in 0..20000 {
        let (x, y) = (next(), next());
        let p = f(b(x).times(b(y)));
        let q = f(b(x).over(b(y)));
        assert!(p == x * y || (p.is_nan() && (x * y).is_nan()), "{x} * {y} gave {p}");
        assert!(q == x / y || (q.is_nan() && (x / y).is_nan()), "{x} / {y} gave {q}");
    }
}
