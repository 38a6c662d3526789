//! Flat-named checkpoints: names, experts and the two caches.

use candle_lm::cache::CachedTensor;
use candle_lm::dtype::DType;
use candle_lm::error::LmError;
use candle_lm::float::F32;
use candle_lm::plan::{WeightPart, WeightSource};
use candle_lm::quantized_deepseek_v4::{
    dequantize_fp4_block_scale, dequantize_fp8_block_scale, e8m0_to_f32, fp4_e2m1_to_f32,
    fp8_e4m3_to_f32, real_schema_target, DeepseekV4Quantized, LayerBackend, LoadPlan, Lookup,
    RealTarget,
};

fn f(v: F32) -> f32 {
    f32::from_bits(v.bits)
}

fn close(a: f32, b: f32, tol: f32, label: &str) {
    let ok = (a.is_nan() && b.is_nan())
        || (a == b)
        || (a - b).abs() < tol
        || (a.is_infinite() && a == b);
    assert!(ok, "{label}: got {a}, expected {b}");
}

#[test]
fn quantized_deepseek_v4_e8m0_scale_values() {
    assert_eq!(f(e8m0_to_f32(127)), 1.0);
    assert_eq!(f(e8m0_to_f32(128)), 2.0);
    assert_eq!(f(e8m0_to_f32(126)), 0.5);
    assert_eq!(f(e8m0_to_f32(134)), 128.0);
    assert_eq!(f(e8m0_to_f32(0)), 2f32.powi(-127));
}

#[test]
fn quantized_deepseek_v4_fp8_e4m3_values() {
    assert_eq!(f(fp8_e4m3_to_f32(0x00)), 0.0);
    assert_eq!(f(fp8_e4m3_to_f32(0x3C)), 1.5);
    assert_eq!(f(fp8_e4m3_to_f32(0x3F)), 1.875);
    assert_eq!(f(fp8_e4m3_to_f32(0x78)), 256.0);
    assert_eq!(f(fp8_e4m3_to_f32(0x7E)), 448.0);
    assert!(f(fp8_e4m3_to_f32(0x7F)).is_nan());
    assert_eq!(f(fp8_e4m3_to_f32(0x01)), 2f32.powi(-9));
    assert_eq!(f(fp8_e4m3_to_f32(0x80)), -0.0);
    assert_eq!(f(fp8_e4m3_to_f32(0xC0)), -2.0);
}

#[test]
fn quantized_deepseek_v4_fp8_e4m3_matches_float8_for_all_bits() {
    for b in 0u8..=255 {
        let mine = f(fp8_e4m3_to_f32(b));
        let refv = float8::F8E4M3::from_bits(b).to_f64() as f32;
        close(mine, refv, 1e-6, &format!("fp8 {b:#04x}"));
    }
}

#[test]
fn quantized_deepseek_v4_fp4_e2m1_values() {
    let lut = [
        0.0, 0.5, 1.0, 1.5, 2.0, 3.0, 4.0, 6.0, //
        -0.0, -0.5, -1.0, -1.5, -2.0, -3.0, -4.0, -6.0,
    ];
    for (nib, &want) in lut.iter().enumerate() {
        let got = f(fp4_e2m1_to_f32(nib as u8));
        assert_eq!(got, want, "fp4 nibble 0x{nib:X}");
        assert!(got.is_finite(), "fp4 nibble 0x{nib:X} must be finite");
    }
}

#[test]
fn quantized_deepseek_v4_fp8_block_dequant() {
    let weight = [
        0x3C, 0x3F, 0x80, 0xC0, //
        0x3C, 0x3F, 0x80, 0xC0, //
        0x00, 0x01, 0x78, 0x7E, //
        0x3C, 0x3F, 0x80, 0xC0,
    ];
    let scale = [127, 128, 126, 134]; // 1.0, 2.0, 0.5, 128.0
    let out = dequantize_fp8_block_scale(&weight, &scale, 4, 4, (2, 2)).unwrap();
    let expected = [
        1.5,
        1.875,
        -0.0,
        -4.0, //
        1.5,
        1.875,
        -0.0,
        -4.0, //
        0.0,
        0.0009765625,
        32768.0,
        57344.0, //
        0.75,
        0.9375,
        -0.0,
        -256.0,
    ];
    assert_eq!(out.len(), 16);
    for (i, (a, b)) in out.iter().zip(expected).enumerate() {
        close(f(*a), b, 1e-5, &format!("fp8 dequant[{i}]"));
    }
}

#[test]
fn quantized_deepseek_v4_fp4_block_dequant() {
    let packed = [0x32, 0x54, 0xBA, 0x76, 0x21, 0x43, 0x65, 0x00];
    let scale = [127, 128, 126, 134]; // 1.0, 2.0, 0.5, 128.0
    let out = dequantize_fp4_block_scale(&packed, &scale, 4, 4, (2, 2)).unwrap();
    let expected = [
        1.0, 1.5, 4.0, 6.0, //
        -1.0, -1.5, 8.0, 12.0, //
        0.25, 0.5, 192.0, 256.0, //
        1.5, 2.0, 0.0, 0.0,
    ];
    assert_eq!(out.len(), 16);
    for (i, (a, b)) in out.iter().zip(expected).enumerate() {
        close(f(*a), b, 1e-5, &format!("fp4 dequant[{i}]"));
    }
}

#[test]
fn quantized_deepseek_v4_dequant_rejects_mismatched_sizes() {
    let w = [0x3C; 8];
    let s = [127; 1];
    assert!(dequantize_fp8_block_scale(&w, &s, 4, 4, (2, 2)).is_err());
    assert!(dequantize_fp8_block_scale(&w, &[127; 4], 4, 4, (3, 3)).is_err());
    let p = [0x32; 4];
    assert!(dequantize_fp4_block_scale(&p, &[127; 4], 4, 4, (2, 2)).is_err());
}

#[test]
fn the_weight_is_looked_at_first() {
    let w = [0u8; 16];
    assert_eq!(
        dequantize_fp8_block_scale(&w[..3], &[127; 4], 4, 4, (3, 3)).unwrap_err(),
        LmError::WeightLen { len: 3, n: 4, m: 4 }
    );
    assert_eq!(
        dequantize_fp8_block_scale(&w, &[127; 4], 4, 4, (3, 3)).unwrap_err(),
        LmError::BlockTiling { bn: 3, bm: 3, n: 4, m: 4 }
    );
    assert_eq!(
        dequantize_fp8_block_scale(&w, &[127; 5], 4, 4, (2, 2)).unwrap_err(),
        LmError::ScaleLen { len: 5, tiles: 4 }
    );
    assert_eq!(
        dequantize_fp4_block_scale(&w, &[127; 4], 4, 4, (2, 2)).unwrap_err(),
        LmError::PackedLen { len: 16, n: 4, m: 4 }
    );
}

fn single(name: &str, expected: &str) {
    match real_schema_target(name) {
        Some(RealTarget::Single(t)) => assert_eq!(t, expected, "{name}"),
        other => panic!("{name}: expected Single({expected}), got {other:?}"),
    }
}

#[test]
fn real_schema_name_remap() {
    single("model.embed_tokens.weight", "embed.weight");
    single("model.norm.weight", "norm.weight");
    single("lm_head.weight", "head.weight");
    single("model.hc_head.hc_fn", "hc_head_fn");
    single("model.hc_head.hc_base", "hc_head_base");
    single("model.hc_head.hc_scale", "hc_head_scale");
    single("model.layers.0.self_attn.q_a_proj.weight", "layers.0.attn.wq_a.weight");
    single("model.layers.7.self_attn.kv_proj.weight", "layers.7.attn.wkv.weight");
    single("model.layers.42.self_attn.o_b_proj.weight", "layers.42.attn.wo_b.weight");
    single("model.layers.3.self_attn.sinks", "layers.3.attn.attn_sink");
    single("model.layers.5.input_layernorm.weight", "layers.5.attn_norm.weight");
    single("model.layers.5.post_attention_layernorm.weight", "layers.5.ffn_norm.weight");
    single("model.layers.1.mlp.gate.weight", "layers.1.ffn.gate.weight");
    single("model.layers.1.mlp.gate.tid2eid", "layers.1.ffn.gate.tid2eid");
    single(
        "model.layers.9.mlp.shared_experts.gate_proj.weight",
        "layers.9.ffn.shared_experts.w1.weight",
    );
    single(
        "model.layers.9.mlp.shared_experts.up_proj.weight",
        "layers.9.ffn.shared_experts.w3.weight",
    );
    single(
        "model.layers.9.mlp.shared_experts.down_proj.weight",
        "layers.9.ffn.shared_experts.w2.weight",
    );
    single("model.layers.2.attn_hc.fn", "layers.2.hc_attn_fn");
    single("model.layers.2.ffn_hc.scale", "layers.2.hc_ffn_scale");
    single(
        "model.layers.10.self_attn.compressor.kv_proj.weight",
        "layers.10.attn.compressor.wkv.weight",
    );
    single(
        "model.layers.10.self_attn.compressor.gate_proj.weight",
        "layers.10.attn.compressor.wgate.weight",
    );
    single(
        "model.layers.10.self_attn.compressor.position_bias",
        "layers.10.attn.compressor.ape",
    );
    single(
        "model.layers.10.self_attn.compressor.kv_norm.weight",
        "layers.10.attn.compressor.norm.weight",
    );
    single(
        "model.layers.10.self_attn.compressor.indexer.kv_proj.weight",
        "layers.10.attn.indexer.compressor.wkv.weight",
    );
    single(
        "model.layers.10.self_attn.compressor.indexer.gate_proj.weight",
        "layers.10.attn.indexer.compressor.wgate.weight",
    );
    single(
        "model.layers.10.self_attn.compressor.indexer.position_bias",
        "layers.10.attn.indexer.compressor.ape",
    );
    single(
        "model.layers.10.self_attn.compressor.indexer.kv_norm.weight",
        "layers.10.attn.indexer.compressor.norm.weight",
    );
    single(
        "model.layers.10.self_attn.compressor.indexer.q_b_proj.weight",
        "layers.10.attn.indexer.wq_b.weight",
    );
    single(
        "model.layers.10.self_attn.compressor.indexer.scorer.weights_proj.weight",
        "layers.10.attn.indexer.weights_proj.weight",
    );
    assert!(matches!(
        real_schema_target("model.layers.4.mlp.experts.gate_up_proj"),
        Some(RealTarget::GateUp { layer: 4 })
    ));
    assert!(matches!(
        real_schema_target("model.layers.4.mlp.experts.down_proj"),
        Some(RealTarget::Down { layer: 4 })
    ));
    assert!(real_schema_target("model.layers.4.mlp.gate.e_score_correction_bias").is_none());
}

#[test]
fn names_without_a_layer_number_have_no_target() {
    assert!(real_schema_target("model.layers.x.self_attn.sinks").is_none());
    assert!(real_schema_target("model.layers..self_attn.sinks").is_none());
    assert!(real_schema_target("model.layers.3").is_none());
    assert!(real_schema_target("model.layers.99999999999999999999999.self_attn.sinks").is_none());
    assert!(real_schema_target("model.layers.-1.self_attn.sinks").is_none());
    assert!(real_schema_target("layers.3.self_attn.sinks").is_none());
    // A number may carry a plus sign and leading zeros; the target holds its value.
    single("model.layers.+3.self_attn.sinks", "layers.3.attn.attn_sink");
    single("model.layers.007.self_attn.sinks", "layers.7.attn.attn_sink");
}

#[test]
fn a_layer_serves_its_own_weights() {
    let backend = LayerBackend { layer: 12 };
    let full = backend.full_name("self_attn.q_b_proj.weight");
    assert_eq!(full, "model.layers.12.self_attn.q_b_proj.weight");
    single(&full, "layers.12.attn.wq_b.weight");
}

#[test]
fn real_fp4_per_row_gran32_dequant() {
    let packed = [0x32, 0x54, 0xBA, 0x21, 0x21, 0x43, 0x15, 0x32];
    let scale = [127u8, 128u8]; // row 0: 1.0, row 1: 2.0
    let out = dequantize_fp4_block_scale(&packed, &scale, 2, 8, (1, 8)).unwrap();
    let expected = [
        1.0, 1.5, 2.0, 3.0, -1.0, -1.5, 0.5, 1.0, //
        1.0, 2.0, 3.0, 4.0, 6.0, 1.0, 2.0, 3.0,
    ];
    assert_eq!(out.len(), 16);
    for (i, (a, b)) in out.iter().zip(expected).enumerate() {
        close(f(*a), b, 1e-5, &format!("real fp4[{i}]"));
    }
}

fn loader() -> DeepseekV4Quantized<u32> {
    let names = vec![
        "layers.0.attn.wq_a.weight".to_string(),
        "layers.0.attn.wq_a.scale".to_string(),
        "embed.weight".to_string(),
    ];
    DeepseekV4Quantized::new_real(names, DType::BF16, 40, 20)
}

fn fp4_part(part: &WeightPart, name: &str, scale: &str, n: usize, m: usize) {
    assert_eq!(part.name, name);
    assert_eq!(part.dims, vec![n, m]);
    match &part.source {
        WeightSource::Fp4 { scale: s, rows, cols, block } => {
            assert_eq!(s, scale);
            assert_eq!((*rows, *cols, *block), (n, m, (1, 32)));
        }
        other => panic!("{name}: {other:?}"),
    }
}

#[test]
fn experts_are_assembled_from_packed_matrices() {
    let q = loader();
    match q.load_real("model.layers.3.mlp.experts.gate_up_proj", &[2, 128, 64]) {
        LoadPlan::GateUp(rows) => {
            assert_eq!(rows.len(), 2);
            for (i, (w1, w3)) in rows.iter().enumerate() {
                let stem = format!("layers.3.ffn.experts.{i}");
                fp4_part(w1, &format!("{stem}.w1.weight"), &format!("{stem}.w1.scale"), 64, 64);
                fp4_part(w3, &format!("{stem}.w3.weight"), &format!("{stem}.w3.scale"), 64, 64);
            }
        }
        other => panic!("{other:?}"),
    }
    match q.load_real("model.layers.3.mlp.experts.down_proj", &[2, 64, 96]) {
        LoadPlan::Down(rows) => {
            assert_eq!(rows.len(), 2);
            fp4_part(
                &rows[1],
                "layers.3.ffn.experts.1.w2.weight",
                "layers.3.ffn.experts.1.w2.scale",
                64,
                96,
            );
        }
        other => panic!("{other:?}"),
    }
}

#[test]
fn single_tensors_are_read_by_their_scale() {
    let q = loader();
    match q.load_real("model.layers.0.self_attn.q_a_proj.weight", &[256, 128]) {
        LoadPlan::One(part) => {
            assert_eq!(part.name, "layers.0.attn.wq_a.weight");
            match part.source {
                WeightSource::Fp8 { scale, rows, cols, block } => {
                    assert_eq!(scale, "layers.0.attn.wq_a.scale");
                    assert_eq!((rows, cols, block), (256, 128, (128, 128)));
                }
                other => panic!("{other:?}"),
            }
        }
        other => panic!("{other:?}"),
    }
    match q.load_real("model.embed_tokens.weight", &[256, 128]) {
        LoadPlan::One(part) => {
            assert_eq!(part.name, "embed.weight");
            assert!(matches!(part.source, WeightSource::Plain));
        }
        other => panic!("{other:?}"),
    }
    // Names without a target are looked for as they are.
    match q.load_real("model.layers.0.mlp.gate.e_score_correction_bias", &[8]) {
        LoadPlan::One(part) => {
            assert_eq!(part.name, "model.layers.0.mlp.gate.e_score_correction_bias");
        }
        other => panic!("{other:?}"),
    }
    assert_eq!(q.unchecked_name("model.layers.1.mlp.gate.tid2eid"), "layers.1.ffn.gate.tid2eid");
    assert_eq!(q.unchecked_name("other"), "other");
    assert_eq!(q.real_scale_name("a.b.weight"), "a.b.scale");
    assert_eq!(q.real_scale_name("a.b"), "a.b.scale");
}

#[test]
fn integers_keep_their_type() {
    let q = loader();
    assert_eq!(q.finalize_dtype(DType::I64), DType::I64);
    assert_eq!(q.finalize_dtype(DType::U8), DType::U8);
    assert_eq!(q.finalize_dtype(DType::F32), DType::BF16);
    assert_eq!(q.finalize_dtype(DType::F8E4M3), DType::BF16);
}

fn weight(v: u32) -> CachedTensor<u32> {
    CachedTensor { dims: vec![4], dtype: DType::F32, data: v }
}

#[test]
fn lookups_go_through_both_caches() {
    let mut q = loader();
    assert!(matches!(q.gpu_weight("a", &[4]), Lookup::Missing(LoadPlan::One(_))));
    q.keep_offloaded("a", weight(1));
    match q.gpu_weight("a", &[4]) {
        Lookup::Offloaded(t) => assert_eq!(t.data, 1),
        _ => panic!("a is offloaded"),
    }
    q.keep_on_device("a", weight(2));
    match q.gpu_weight("a", &[4]) {
        Lookup::Device(t) => assert_eq!(t.data, 2),
        _ => panic!("a is on the device"),
    }
    assert_eq!((q.resident_bytes(), q.cached_len(), q.evictions()), (16, 1, 0));
    q.keep_on_device("b", weight(3));
    assert_eq!((q.gpu_resident_bytes(), q.gpu_cached_len(), q.gpu_evictions()), (16, 1, 1));
    // "a" left the device, and is still offloaded.
    match q.gpu_weight("a", &[4]) {
        Lookup::Offloaded(t) => assert_eq!(t.data, 1),
        _ => panic!("a is offloaded"),
    }
    assert_eq!(q.load_weight("a", &[4]).ok().unwrap().data, 1);
    assert!(q.load_weight("c", &[4]).is_err());
}

#[test]
fn an_empty_block_is_refused() {
    for block in [(0, 2), (2, 0)] {
        let want = LmError::BlockTiling { bn: block.0, bm: block.1, n: 4, m: 4 };
        assert_eq!(dequantize_fp8_block_scale(&[0x3C; 16], &[127; 4], 4, 4, block), Err(want));
        assert_eq!(dequantize_fp4_block_scale(&[0x22; 8], &[127; 4], 4, 4, block), Err(want));
    }
}

/// The names of every weight within a layer.
fn bodies() -> Vec<&'static str> {
    vec![
        "self_attn.q_a_proj.weight",
        "self_attn.q_a_norm.weight",
        "self_attn.q_b_proj.weight",
        "self_attn.kv_proj.weight",
        "self_attn.kv_norm.weight",
        "self_attn.o_a_proj.weight",
        "self_attn.o_b_proj.weight",
        "self_attn.sinks",
        "self_attn.compressor.kv_proj.weight",
        "self_attn.compressor.gate_proj.weight",
        "self_attn.compressor.position_bias",
        "self_attn.compressor.kv_norm.weight",
        "self_attn.compressor.indexer.kv_proj.weight",
        "self_attn.compressor.indexer.gate_proj.weight",
        "self_attn.compressor.indexer.position_bias",
        "self_attn.compressor.indexer.kv_norm.weight",
        "self_attn.compressor.indexer.q_b_proj.weight",
        "self_attn.compressor.indexer.scorer.weights_proj.weight",
        "attn_hc.fn",
        "attn_hc.base",
        "attn_hc.scale",
        "ffn_hc.fn",
        "ffn_hc.base",
        "ffn_hc.scale",
        "input_layernorm.weight",
        "post_attention_layernorm.weight",
        "mlp.gate.weight",
        "mlp.gate.tid2eid",
        "mlp.shared_experts.gate_proj.weight",
        "mlp.shared_experts.up_proj.weight",
        "mlp.shared_experts.down_proj.weight",
        "mlp.experts.gate_up_proj",
        "mlp.experts.down_proj",
    ]
}

#[test]
fn weights_share_no_stored_tensor() {
    let mut names: Vec<String> = [
        "model.embed_tokens.weight",
        "model.norm.weight",
        "lm_head.weight",
        "model.hc_head.hc_fn",
        "model.hc_head.hc_base",
        "model.hc_head.hc_scale",
    ]
    .iter()
    .map(|n| n.to_string())
    .collect();
    for layer in [0, 1, 12, 120] {
        for body in bodies() {
            names.push(LayerBackend { layer }.full_name(body));
        }
    }
    // What each weight is read from, with two experts.
    let q = loader();
    let mut read: Vec<String> = Vec::new();
    for name in &names {
        let parts: Vec<String> = match q.load_real(name, &[2, 4, 8]) {
            LoadPlan::One(p) => vec![p.name],
            LoadPlan::GateUp(v) => v.into_iter().flat_map(|(a, b)| [a.name, b.name]).collect(),
            LoadPlan::Down(v) => v.into_iter().map(|p| p.name).collect(),
        };
        if let Some(rest) = name.strip_prefix("model.layers.") {
            let head = format!("layers.{}.", rest.split('.').next().unwrap());
            assert!(parts.iter().all(|p| p.starts_with(&head)), "{name}");
        }
        assert!(parts.iter().all(|p| real_schema_target(p).is_none()), "{name}");
        read.extend(parts);
    }
    let count = read.len();
    read.sort();
    read.dedup();
    assert_eq!(read.len(), count);
    assert_eq!(count, 6 + 4 * (31 + 4 + 2));
}

/// The weight `name`, through both caches; weights are numbered by their length.
fn fetch(q: &mut DeepseekV4Quantized<u32>, name: &str) -> u32 {
    let stored = name.len() as u32;
    let host = match q.gpu_weight(name, &[4]) {
        Lookup::Device(t) => return t.data,
        Lookup::Offloaded(t) => Some(t.data),
        Lookup::Missing(_) => None,
    };
    let host = match host {
        Some(v) => v,
        None => {
            q.keep_offloaded(name, weight(stored));
            stored
        }
    };
    q.keep_on_device(name, weight(host * 2));
    host * 2
}

#[test]
fn streaming_reads_the_weights_of_a_whole_model() {
    let names: Vec<String> = (0..6).map(|i| "w".repeat(i + 1)).collect();
    let want: Vec<u32> = (0..6).map(|i| 2 * (i + 1)).collect();
    // From caches too small for one weight to caches that hold them all.
    for (host, device) in [(0, 0), (16, 16), (40, 20), (20, 40), (1000, 1000)] {
        let mut q: DeepseekV4Quantized<u32> =
            DeepseekV4Quantized::new_real(vec![], DType::BF16, host, device);
        for _ in 0..2 {
            let got: Vec<u32> = names.iter().map(|n| fetch(&mut q, n)).collect();
            assert_eq!(got, want);
            assert!(q.resident_bytes() <= host && q.gpu_resident_bytes() <= device);
        }
    }
}
