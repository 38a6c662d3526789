//! Decoding of block-scaled weights and the offload cache.

use candle_lm::cache::CachedTensor;
use candle_lm::deepseek_v4::quantized::{
    dequantize_fp4_block_scale, dequantize_fp8_block_scale, e8m0_to_f32, fp4_e2m1_to_f32,
    fp8_e4m3_to_f32, DeepseekV4Quantized, Loaded, OffloadCache,
};
use candle_lm::dtype::DType;
use candle_lm::error::LmError;
use candle_lm::float::F32;
use candle_lm::plan::{same_shape, WeightSource};

fn f(v: F32) -> f32 {
    f32::from_bits(v.bits)
}

fn close(a: f32, b: f32, tol: f32, label: &str) {
    let ok = (a.is_nan() && b.is_nan())
        || (a == b)
        || (a - b).abs() < tol
        || (a.is_infinite() && a == b);
    assert!(ok, "{label}: got {a}, expected {b}");
}

#[test]
fn quantized_e8m0_scale_values() {
    assert_eq!(f(e8m0_to_f32(127)), 1.0);
    assert_eq!(f(e8m0_to_f32(128)), 2.0);
    assert_eq!(f(e8m0_to_f32(126)), 0.5);
    assert_eq!(f(e8m0_to_f32(134)), 128.0);
    assert_eq!(f(e8m0_to_f32(0)), 2f32.powi(-127));
}

#[test]
fn quantized_fp8_e4m3_values() {
    assert_eq!(f(fp8_e4m3_to_f32(0x00)), 0.0);
    assert_eq!(f(fp8_e4m3_to_f32(0x3C)), 1.5);
    assert_eq!(f(fp8_e4m3_to_f32(0x3F)), 1.875);
    assert_eq!(f(fp8_e4m3_to_f32(0x78)), 256.0);
    assert_eq!(f(fp8_e4m3_to_f32(0x7E)), 448.0);
    assert!(f(fp8_e4m3_to_f32(0x7F)).is_nan());
    assert_eq!(f(fp8_e4m3_to_f32(0x01)), 2f32.powi(-9));
    assert_eq!(f(fp8_e4m3_to_f32(0x80)), -0.0);
    assert_eq!(f(fp8_e4m3_to_f32(0xC0)), -2.0);
}

#[test]
fn quantized_fp8_e4m3_matches_float8_for_all_bits() {
    for b in 0u8..=255 {
        let mine = f(fp8_e4m3_to_f32(b));
        let refv = float8::F8E4M3::from_bits(b).to_f64() as f32;
        close(mine, refv, 1e-6, &format!("fp8 {b:#04x}"));
    }
}

#[test]
fn quantized_fp4_e2m1_values() {
    assert_eq!(f(fp4_e2m1_to_f32(0x0)), 0.0);
    assert_eq!(f(fp4_e2m1_to_f32(0x1)), 0.5);
    assert_eq!(f(fp4_e2m1_to_f32(0x2)), 1.0);
    assert_eq!(f(fp4_e2m1_to_f32(0x3)), 1.5);
    assert_eq!(f(fp4_e2m1_to_f32(0x4)), 2.0);
    assert_eq!(f(fp4_e2m1_to_f32(0x5)), 3.0);
    assert!(f(fp4_e2m1_to_f32(0x6)).is_infinite());
    assert!(f(fp4_e2m1_to_f32(0x7)).is_nan());
    assert_eq!(f(fp4_e2m1_to_f32(0xA)), -1.0);
    assert!(f(fp4_e2m1_to_f32(0xE)).is_infinite());
}

#[test]
fn quantized_fp8_block_dequant() {
    let weight = [
        0x3C, 0x3F, 0x80, 0xC0, //
        0x3C, 0x3F, 0x80, 0xC0, //
        0x00, 0x01, 0x78, 0x7E, //
        0x3C, 0x3F, 0x80, 0xC0,
    ];
    let scale = [127, 128, 126, 134]; // 1.0, 2.0, 0.5, 128.0
    let out = dequantize_fp8_block_scale(&weight, &scale, 4, 4, (2, 2)).unwrap();
    let expected = [
        1.5,
        1.875,
        -0.0,
        -4.0, //
        1.5,
        1.875,
        -0.0,
        -4.0, //
        0.0,
        0.0009765625,
        32768.0,
        57344.0, //
        0.75,
        0.9375,
        -0.0,
        -256.0,
    ];
    assert_eq!(out.len(), 16);
    for (i, (a, b)) in out.iter().zip(expected).enumerate() {
        close(f(*a), b, 1e-5, &format!("fp8 dequant[{i}]"));
    }
}

#[test]
fn quantized_fp4_block_dequant() {
    let packed = [0x32, 0x54, 0xBA, 0x76, 0x21, 0x43, 0x65, 0x00];
    let scale = [127, 128, 126, 134]; // 1.0, 2.0, 0.5, 128.0
    let out = dequantize_fp4_block_scale(&packed, &scale, 4, 4, (2, 2)).unwrap();
    let expected = [
        1.0,
        1.5,
        4.0,
        6.0, //
        -1.0,
        -1.5,
        f32::INFINITY,
        f32::NAN, //
        0.25,
        0.5,
        192.0,
        256.0, //
        1.5,
        f32::INFINITY,
        0.0,
        0.0,
    ];
    assert_eq!(out.len(), 16);
    for (i, (a, b)) in out.iter().zip(expected).enumerate() {
        close(f(*a), b, 1e-5, &format!("fp4 dequant[{i}]"));
    }
}

#[test]
fn quantized_dequant_rejects_mismatched_sizes() {
    let w = [0x3C; 8];
    let s = [127; 1];
    assert!(dequantize_fp8_block_scale(&w, &s, 4, 4, (2, 2)).is_err());
    assert!(dequantize_fp8_block_scale(&w, &[127; 4], 4, 4, (3, 3)).is_err());
    let p = [0x32; 4];
    assert!(dequantize_fp4_block_scale(&p, &[127; 4], 4, 4, (2, 2)).is_err());
}

#[test]
fn every_size_error_is_reported() {
    let w = [0u8; 16];
    assert_eq!(
        dequantize_fp8_block_scale(&w, &[127; 4], 4, 4, (3, 2)).unwrap_err(),
        LmError::BlockTiling { bn: 3, bm: 2, n: 4, m: 4 }
    );
    assert_eq!(
        dequantize_fp8_block_scale(&w[..15], &[127; 4], 4, 4, (2, 2)).unwrap_err(),
        LmError::WeightLen { len: 15, n: 4, m: 4 }
    );
    assert_eq!(
        dequantize_fp8_block_scale(&w, &[127; 3], 4, 4, (2, 2)).unwrap_err(),
        LmError::ScaleLen { len: 3, tiles: 4 }
    );
    assert_eq!(
        dequantize_fp4_block_scale(&w, &[127; 4], 4, 4, (2, 2)).unwrap_err(),
        LmError::PackedLen { len: 16, n: 4, m: 4 }
    );
    // The tiling is looked at before the weight.
    assert_eq!(
        dequantize_fp8_block_scale(&w[..3], &[127; 4], 4, 4, (3, 3)).unwrap_err(),
        LmError::BlockTiling { bn: 3, bm: 3, n: 4, m: 4 }
    );
}

fn tensor(v: f32) -> CachedTensor<Vec<f32>> {
    CachedTensor { dims: vec![2, 2], dtype: DType::F32, data: vec![v; 4] }
}

#[test]
fn offload_cache_evicts_lru_over_budget() {
    let mut cache: OffloadCache<Vec<f32>> = OffloadCache::new(40);
    cache.insert("a", tensor(1.0)); // 16 bytes
    cache.insert("b", tensor(2.0)); // 32
    cache.insert("c", tensor(3.0)); // 48 > 40 -> evicts a -> 32
    assert!(cache.get_cached("a").is_none());
    assert!(cache.get_cached("b").is_some());
    assert!(cache.get_cached("c").is_some());
    assert_eq!(cache.current_bytes(), 32);
    cache.insert("d", tensor(4.0)); // 48 > 40 -> evicts b -> 32
    assert!(cache.get_cached("b").is_none());
    assert!(cache.get_cached("c").is_some());
    assert!(cache.get_cached("d").is_some());
    assert_eq!(cache.len(), 2);
    cache.clear();
    assert!(cache.is_empty());
    assert_eq!(cache.current_bytes(), 0);
}

#[test]
fn load_fetches_once_and_refreshes() {
    let mut cache: OffloadCache<Vec<f32>> = OffloadCache::new(40);
    let t = cache.load("a", || Ok::<CachedTensor<Vec<f32>>, String>(tensor(1.0))).unwrap();
    assert_eq!(t.get().data, vec![1.0; 4]);
    cache.insert("b", tensor(2.0));
    // A hit does not fetch, and makes the entry the most recently used one.
    let t = cache
        .load("a", || Err::<CachedTensor<Vec<f32>>, String>("fetched".to_string()))
        .unwrap();
    assert_eq!(t.get().data, vec![1.0; 4]);
    cache.insert("c", tensor(3.0));
    assert!(cache.get_cached("a").is_some());
    assert!(cache.get_cached("b").is_none());
    // A failed fetch changes nothing.
    assert_eq!(
        cache.load("x", || Err::<CachedTensor<Vec<f32>>, String>("gone".to_string())).err(),
        Some("gone".to_string())
    );
    assert_eq!(cache.len(), 2);
}

#[test]
fn reinsert_replaces_and_oversized_leaves() {
    let mut cache: OffloadCache<Vec<f32>> = OffloadCache::new(20);
    cache.insert("a", tensor(1.0));
    cache.insert("a", tensor(2.0));
    assert_eq!(cache.len(), 1);
    assert_eq!(cache.current_bytes(), 16);
    assert_eq!(cache.get_cached("a").unwrap().data, vec![2.0; 4]);
    let big = CachedTensor { dims: vec![3, 2], dtype: DType::F32, data: vec![0.0; 6] };
    cache.insert("big", big);
    assert!(cache.is_empty());
}

#[test]
fn a_tensor_over_the_budget_is_handed_out_and_not_kept() {
    let mut cache: OffloadCache<Vec<f32>> = OffloadCache::new(8);
    for _ in 0..2 {
        let t = cache.load("w", || Ok::<CachedTensor<Vec<f32>>, String>(tensor(0.0))).unwrap();
        assert_eq!((t.get().dims.clone(), t.get().data.clone()), (vec![2, 2], vec![0.0; 4]));
        assert!(matches!(t, Loaded::Passed(_)));
        assert_eq!((cache.len(), cache.current_bytes()), (0, 0));
    }
}

#[test]
fn loads_give_the_same_tensor_after_eviction() {
    let mut cache: OffloadCache<Vec<f32>> = OffloadCache::new(40);
    let names = ["a", "b", "c", "a", "d", "b", "a", "a"];
    for name in names {
        let v = name.as_bytes()[0] as f32;
        let t = cache.load(name, || Ok::<CachedTensor<Vec<f32>>, String>(tensor(v))).unwrap();
        assert_eq!(t.get().data, vec![v; 4]);
        assert!(cache.current_bytes() <= 40);
    }
}

#[test]
fn a_block_with_an_empty_side_is_refused() {
    for block in [(0, 2), (2, 0), (0, 0)] {
        let want = LmError::BlockTiling { bn: block.0, bm: block.1, n: 4, m: 4 };
        assert_eq!(dequantize_fp8_block_scale(&[0x3C; 16], &[127; 4], 4, 4, block), Err(want));
        assert_eq!(dequantize_fp4_block_scale(&[0x22; 8], &[127; 4], 4, 4, block), Err(want));
    }
}

#[test]
fn reading_is_planned_by_name_and_shape() {
    let names = vec!["w".to_string(), "w_scale_inv".to_string(), "plain".to_string()];
    let fp4 = vec!["experts.gate_up_proj".to_string()];
    let mut q: DeepseekV4Quantized<Vec<f32>> =
        DeepseekV4Quantized::new(names, (128, 64), "_scale_inv", fp4, DType::BF16, 100);
    assert!(q.contains("w"));
    assert!(!q.contains("v"));

    let part = q.dequantize("w", &[3, 256, 128]);
    assert!(part.reshape);
    match part.source {
        WeightSource::Fp8 { scale, rows, cols, block } => {
            assert_eq!(scale, "w_scale_inv");
            assert_eq!((rows, cols, block), (768, 128, (128, 64)));
        }
        other => panic!("{other:?}"),
    }
    match q.dequantize("layers.0.experts.gate_up_proj", &[2, 4, 8]).source {
        WeightSource::Fp4 { scale, rows, cols, block } => {
            assert_eq!(scale, "layers.0.experts.gate_up_proj_scale_inv");
            assert_eq!((rows, cols, block), (8, 8, (128, 64)));
        }
        other => panic!("{other:?}"),
    }
    assert!(matches!(q.dequantize("plain", &[4, 4]).source, WeightSource::Plain));
    let flat = q.dequantize("w", &[4]);
    assert!(matches!(flat.source, WeightSource::Plain));
    assert!(!flat.reshape);

    let plan = q.load_weight("plain", &[2, 2]).err().unwrap();
    assert_eq!(plan.name, "plain");
    q.keep("plain", tensor(5.0));
    assert_eq!(q.load_weight("plain", &[2, 2]).ok().unwrap().data, vec![5.0; 4]);
    assert_eq!(q.resident_bytes(), 16);
    assert_eq!(q.cached_len(), 1);
}

#[test]
fn shapes_are_compared_element_by_element() {
    assert!(same_shape(&[2, 3], &[2, 3]));
    assert!(!same_shape(&[2, 3], &[3, 2]));
    assert!(!same_shape(&[2, 3], &[2, 3, 1]));
}
