//! GLM-5.3-Flash: schedules, token selection, caches and layer dispatch.

use candle_lm::activation::Activation;
use candle_lm::deepseek_v4::{HyperConnectionConfig, MoeExpertsConfig};
use candle_lm::error::LmError;
use candle_lm::float::{F32, F64};
use candle_lm::glm5_next::attention::{
    build_indexer, next_is_shared, Glm5NextTextAttention, PoolScores, Selection,
};
use candle_lm::glm5_next::generate::{decode_step, sampling_mode, SamplingMode};
use candle_lm::glm5_next::kda::{ConvPlan, KdaLinearAttention};
use candle_lm::glm5_next::model::{
    carry_topk, Glm5NextDecoderLayer, Glm5NextForCausalLM, Glm5NextTextModel, LayerStart,
};
use candle_lm::glm5_next::router::Glm5NextTextMoE;
use candle_lm::glm5_next::{
    default_first_k_dense_replace, default_hc_eps, default_index_kpool, default_initializer_range,
    default_linear_lower_bound, default_pad_token_id, default_rms_norm_eps,
    default_router_aux_loss_coef, default_swiglu_limit, Glm5NextTextConfig, IndexerType, LayerType,
    LinearAttnConfig, MlpLayerType,
};

fn d(v: f64) -> F64 {
    F64 { bits: v.to_bits() }
}

fn s(v: f32) -> F32 {
    F32 { bits: v.to_bits() }
}

/// A small configuration that leaves the schedules to their defaults.
fn reduced_config() -> Glm5NextTextConfig {
    Glm5NextTextConfig {
        vocab_size: 1024,
        hidden_size: 32,
        intermediate_size: 64,
        moe_intermediate_size: 16,
        num_hidden_layers: 8,
        num_attention_heads: 4,
        num_key_value_heads: 4,
        n_shared_experts: 1,
        n_routed_experts: 8,
        routed_scaling_factor: d(2.5),
        kv_lora_rank: 8,
        q_lora_rank: 16,
        qk_rope_head_dim: 0,
        v_head_dim: 8,
        qk_nope_head_dim: 8,
        n_group: 1,
        topk_group: 1,
        num_experts_per_tok: 2,
        norm_topk_prob: true,
        hidden_act: Activation::Silu,
        max_position_embeddings: 1024,
        initializer_range: default_initializer_range(),
        rms_norm_eps: d(1e-5),
        use_cache: true,
        pad_token_id: 1020,
        bos_token_id: None,
        eos_token_id: None,
        tie_word_embeddings: false,
        mlp_layer_types: vec![],
        attention_bias: false,
        attention_dropout: d(0.0),
        index_topk: 32,
        index_head_dim: 8,
        index_n_heads: 2,
        head_dim: 0,
        layer_types: vec![],
        indexer_types: vec![],
        swiglu_limit: d(10.0),
        linear_attn_config: LinearAttnConfig {
            num_heads: 2,
            gate_lower_bound: Some(d(-5.0)),
            head_dim: 8,
            short_conv_kernel_size: 2,
            kda_layers: vec![0, 1, 2, 4, 5, 6],
            full_attn_layers: vec![3, 7],
        },
        linear_lower_bound: default_linear_lower_bound(),
        hc_mult: 2,
        hc_eps: d(1e-6),
        hc_sinkhorn_iters: 5,
        output_router_logits: false,
        router_aux_loss_coef: d(0.001),
        index_kpool: 2,
        index_kpool_always_select_tail: true,
        first_k_dense_replace: 2,
        mhc: true,
        mla_use_nope: true,
        index_kpool_compress: true,
        index_share_for_mtp_iteration: false,
        indexer_rope_interleave: true,
    }
}

#[test]
fn official_config_deserializes_with_defaults() {
    let cfg = reduced_config();
    assert_eq!(cfg.vocab_size, 1024);
    assert_eq!(cfg.hidden_size, 32);
    assert_eq!(cfg.moe_intermediate_size, 16);
    assert_eq!(cfg.num_hidden_layers, 8);
    assert_eq!(cfg.qk_rope_head_dim, 0);
    assert_eq!(cfg.hc_mult, 2);
    assert_eq!(cfg.linear_attn_config.num_heads, 2);
    assert_eq!(cfg.linear_head_dim(), 8);
    assert_eq!(cfg.linear_conv_kernel_dim(), 2);
    assert_eq!(cfg.linear_lower_bound(), Some(d(-5.0)));
    assert_eq!(cfg.head_dim, 0);
}

#[test]
fn layer_schedule_validation() {
    let cfg = reduced_config();

    let attn = cfg.effective_layer_types();
    assert_eq!(attn.len(), 8);
    assert_eq!(attn[0], LayerType::LinearAttention);
    assert_eq!(attn[3], LayerType::DeepseekSparseAttention);
    assert_eq!(attn[7], LayerType::DeepseekSparseAttention);
    assert_eq!(cfg.dsa_layer_indices(), vec![3, 7]);
    assert_eq!(cfg.kda_layer_indices(), vec![0, 1, 2, 4, 5, 6]);

    let mlp = cfg.effective_mlp_layer_types();
    assert_eq!(mlp.len(), 8);
    assert_eq!(mlp[0], MlpLayerType::Dense);
    assert_eq!(mlp[1], MlpLayerType::Dense);
    assert_eq!(mlp[2], MlpLayerType::Sparse);
    assert_eq!(cfg.sparse_mlp_layer_indices(), vec![2, 3, 4, 5, 6, 7]);

    let idx = cfg.effective_indexer_types();
    assert_eq!(idx.len(), 8);
    assert!(idx.iter().all(|t| *t == IndexerType::Full));
}

#[test]
fn explicit_schedules_take_precedence() {
    let mut cfg = reduced_config();
    cfg.layer_types = vec![LayerType::DeepseekSparseAttention, LayerType::LinearAttention];
    cfg.mlp_layer_types = vec![MlpLayerType::Sparse, MlpLayerType::Dense];
    cfg.indexer_types = vec![IndexerType::Shared];
    assert_eq!(cfg.dsa_layer_indices(), vec![0]);
    assert_eq!(cfg.kda_layer_indices(), vec![1]);
    assert_eq!(cfg.sparse_mlp_layer_indices(), vec![0]);
    assert_eq!(cfg.effective_indexer_types(), vec![IndexerType::Shared]);
    // Past the schedules a layer is linear with routed experts.
    let layer = Glm5NextDecoderLayer::new(&cfg, 5);
    assert!(!layer.is_sparse_attention());
    assert!(layer.is_sparse_mlp());
}

#[test]
fn zero_sizes_and_missing_bounds_have_defaults() {
    let mut cfg = reduced_config();
    cfg.linear_attn_config = LinearAttnConfig {
        num_heads: 0,
        gate_lower_bound: None,
        head_dim: 0,
        short_conv_kernel_size: 0,
        kda_layers: vec![],
        full_attn_layers: vec![],
    };
    cfg.linear_lower_bound = Some(d(-3.0));
    assert_eq!(cfg.linear_num_heads(), 64);
    assert_eq!(cfg.linear_head_dim(), 128);
    assert_eq!(cfg.linear_conv_kernel_dim(), 4);
    assert_eq!(cfg.linear_lower_bound(), Some(d(-3.0)));
    let lin = LinearAttnConfig::default();
    assert_eq!((lin.num_heads, lin.head_dim, lin.short_conv_kernel_size), (64, 128, 4));
    assert_eq!(lin.gate_lower_bound, Some(d(-5.0)));
}

#[test]
fn default_numbers_have_their_bits() {
    assert_eq!(default_initializer_range(), s(0.02));
    assert_eq!(default_rms_norm_eps(), d(1e-5));
    assert_eq!(default_hc_eps(), d(1e-6));
    assert_eq!(default_router_aux_loss_coef(), d(0.001));
    assert_eq!(default_swiglu_limit(), d(10.0));
    assert_eq!(default_linear_lower_bound(), Some(d(-5.0)));
    assert_eq!(default_pad_token_id(), 154820);
    assert_eq!(default_index_kpool(), 16);
    assert_eq!(default_first_k_dense_replace(), 3);
}

#[test]
fn shared_components_read_the_config() {
    let cfg = reduced_config();
    assert_eq!(HyperConnectionConfig::hc_mult(&cfg), 2);
    assert_eq!(HyperConnectionConfig::hc_sinkhorn_iters(&cfg), 5);
    assert_eq!(HyperConnectionConfig::hc_eps(&cfg), d(1e-6));
    assert_eq!(HyperConnectionConfig::hidden_size(&cfg), 32);
    assert_eq!(HyperConnectionConfig::rms_norm_eps(&cfg), d(1e-5));
    assert_eq!(MoeExpertsConfig::n_routed_experts(&cfg), 8);
    assert_eq!(MoeExpertsConfig::moe_intermediate_size(&cfg), 16);
    assert_eq!(MoeExpertsConfig::hidden_size(&cfg), 32);
    assert_eq!(MoeExpertsConfig::swiglu_limit(&cfg), d(10.0));
}

#[test]
fn layer_dispatch_follows_schedule() {
    let cfg = reduced_config();
    let model = Glm5NextForCausalLM::new(&cfg);
    let schedule: Vec<(bool, bool)> = (0..cfg.num_hidden_layers)
        .map(|i| {
            (
                model.model.layers[i].is_sparse_attention(),
                model.model.layers[i].is_sparse_mlp(),
            )
        })
        .collect();
    let expected = vec![
        (false, false),
        (false, false),
        (false, true),
        (true, true),
        (false, true),
        (false, true),
        (false, true),
        (true, true),
    ];
    assert_eq!(schedule, expected);
}

#[test]
fn logits_shape() {
    let cfg = reduced_config();
    let model = Glm5NextForCausalLM::new(&cfg);
    assert_eq!(model.logits_shape(1, 4), (1, 4, cfg.vocab_size));
}

#[test]
fn projections_have_the_configured_sizes() {
    let mut cfg = reduced_config();
    cfg.attention_bias = true;
    cfg.n_shared_experts = 3;
    let a = Glm5NextTextAttention::new(&cfg, 3);
    assert_eq!((a.q_a_proj.inp, a.q_a_proj.out, a.q_a_proj.bias), (32, 16, true));
    assert_eq!((a.q_b_proj.inp, a.q_b_proj.out, a.q_b_proj.bias), (16, 32, false));
    assert_eq!((a.kv_a_proj.inp, a.kv_a_proj.out, a.kv_a_proj.bias), (32, 8, true));
    assert_eq!((a.kv_b_proj.inp, a.kv_b_proj.out, a.kv_b_proj.bias), (8, 64, false));
    assert_eq!((a.o_proj.inp, a.o_proj.out, a.o_proj.bias), (32, 32, true));
    let moe = Glm5NextTextMoE::new(&cfg);
    assert_eq!(moe.shared_experts.intermediate_size, 48);
    assert_eq!(moe.gate.num_experts, 8);
}

#[test]
fn indexers_follow_their_schedule() {
    let mut cfg = reduced_config();
    cfg.indexer_types = vec![IndexerType::Full, IndexerType::Shared, IndexerType::Full];
    assert!(build_indexer(&cfg, 0).is_some());
    assert!(build_indexer(&cfg, 1).is_none());
    assert!(build_indexer(&cfg, 9).is_some());
    assert!(next_is_shared(&cfg, 0));
    assert!(!next_is_shared(&cfg, 1));
    assert!(!next_is_shared(&cfg, 2));
    cfg.indexer_types = vec![IndexerType::Full, IndexerType::Shared];
    // Past the schedule the last entry counts.
    assert!(next_is_shared(&cfg, 7));
}

/// A sparse layer that selects one pool of two tokens and the tail.
fn small_layer() -> Glm5NextTextAttention {
    let mut cfg = reduced_config();
    cfg.index_topk = 2;
    Glm5NextTextAttention::new(&cfg, 3)
}

fn seen(mask: &[F32]) -> Vec<usize> {
    (0..mask.len()).filter(|j| mask[*j].bits == 0).collect()
}

#[test]
fn queries_select_a_pool_and_the_tail() {
    let mut layer = small_layer();
    let pooled = layer.push_tokens(1, 5, None).unwrap().unwrap();
    assert_eq!(pooled.keep, vec![0, 1]);
    assert_eq!(pooled.first_keys, vec![0]);
    let scores = vec![(0..5).map(|_| vec![s(0.1), s(0.9)]).collect::<Vec<Vec<F32>>>()];
    let ranked = PoolScores { pooled, scores };
    let out = layer.forward(5, None, Some(&ranked), None).unwrap();
    assert_eq!(
        out.topk[0],
        vec![vec![-1, -1, 0], vec![0, 1, -1], vec![0, 1, 2], vec![2, 3, -1], vec![2, 3, 4]]
    );
    let rows: Vec<Vec<usize>> = out.mask[0].iter().map(|r| seen(r)).collect();
    assert_eq!(rows, vec![vec![0], vec![0, 1], vec![0, 1, 2], vec![2, 3], vec![2, 3, 4]]);
    for row in &out.mask[0] {
        for v in row {
            assert!(v.bits == 0 || f32::from_bits(v.bits) == f32::NEG_INFINITY);
        }
    }
    assert!(!out.hand_on);
}

#[test]
fn padding_selects_nothing_and_is_never_selected() {
    let mut layer = small_layer();
    let mask = vec![vec![s(0.0), s(1.0), s(1.0), s(1.0), s(1.0)]];
    let pooled = layer.push_tokens(1, 5, Some(&mask)).unwrap().unwrap();
    assert_eq!(pooled.first_keys, vec![1]);
    assert_eq!(pooled.keep, vec![0, 1]);
    let scores = vec![(0..5).map(|_| vec![s(0.9), s(0.1)]).collect::<Vec<Vec<F32>>>()];
    let ranked = PoolScores { pooled, scores };
    let out = layer.forward(5, Some(&mask), Some(&ranked), None).unwrap();
    assert_eq!(
        out.topk[0],
        vec![vec![-1, -1, -1], vec![-1, -1, 1], vec![1, 2, -1], vec![1, 2, 3], vec![1, 2, -1]]
    );
}

#[test]
fn decoding_selects_as_a_full_pass() {
    let score = |q: usize, p: usize| s(((q * 7 + p * 5) % 11) as f32);
    let mut full = small_layer();
    let pooled = full.push_tokens(1, 7, None).unwrap().unwrap();
    let n = pooled.keep.len();
    let scores = vec![(0..7).map(|q| (0..n).map(|p| score(q, p)).collect()).collect()];
    let all = full.forward(7, None, Some(&PoolScores { pooled, scores }), None).unwrap();

    let mut step = small_layer();
    let _ = step.push_tokens(1, 6, None).unwrap().unwrap();
    let pooled = step.push_tokens(1, 1, None).unwrap().unwrap();
    let n = pooled.keep.len();
    let scores = vec![vec![(0..n).map(|p| score(6, p)).collect()]];
    let last = step.forward(1, None, Some(&PoolScores { pooled, scores }), None).unwrap();
    assert_eq!(last.topk[0][0], all.topk[0][6]);
    assert_eq!(last.mask[0][0], all.mask[0][6]);
}

#[test]
fn wrong_shapes_are_refused() {
    let mut layer = small_layer();
    let mask = vec![vec![s(1.0); 3]];
    assert_eq!(
        layer.push_tokens(1, 4, Some(&mask)).err(),
        Some(LmError::MaskShape { batch: 1, seq: 4 })
    );
    assert!(layer.push_tokens(2, 4, None).is_ok());
    assert_eq!(
        layer.push_tokens(3, 1, None).err(),
        Some(LmError::BatchSize { have: 2, got: 3 })
    );
}

#[test]
fn shared_layers_reuse_the_last_full_selection() {
    let mut cfg = reduced_config();
    cfg.index_topk = 2;
    cfg.num_hidden_layers = 4;
    cfg.layer_types = vec![
        LayerType::DeepseekSparseAttention,
        LayerType::LinearAttention,
        LayerType::DeepseekSparseAttention,
        LayerType::DeepseekSparseAttention,
    ];
    cfg.indexer_types = vec![
        IndexerType::Full,
        IndexerType::Full,
        IndexerType::Shared,
        IndexerType::Shared,
    ];
    let mut model = Glm5NextTextModel::new(&cfg);
    let mut prev: Option<Selection> = None;
    let mut first: Option<Selection> = None;
    for (i, layer) in model.layers.iter_mut().enumerate() {
        let ranked = match layer.push_tokens(1, 4, None).unwrap() {
            LayerStart::Full(pooled) => {
                let scores = vec![vec![vec![s(0.5); pooled.keep.len()]; 4]];
                Some(PoolScores { pooled, scores })
            }
            _ => None,
        };
        let out = layer.forward(4, None, ranked.as_ref(), prev.as_ref()).unwrap();
        assert_eq!(out.is_some(), i != 1);
        prev = carry_topk(out.as_ref(), prev.as_ref()).cloned();
        if i == 0 {
            first = prev.clone();
        }
        assert_eq!(prev, first, "layer {i}");
    }

    let layer = Glm5NextTextAttention::new(&cfg, 2);
    assert_eq!(layer.forward(0, None, None, None).err(), Some(LmError::NoSharedTopk));
}

#[test]
fn convolutions_continue_from_the_cache() {
    let mut cfg = reduced_config();
    cfg.linear_attn_config.short_conv_kernel_size = 4;
    let mut kda = KdaLinearAttention::new(&cfg, 6);
    assert_eq!(kda.layer_idx(), 6);
    assert_eq!((kda.qkv_dim, kda.conv_dim), (16, 48));
    let p = kda.forward(5);
    assert_eq!(p.conv, ConvPlan { zeros: 0, cached: 0, len: 5, pad: 3, take: 0, keep: 2 });
    assert!(!p.resume);
    assert_eq!((p.q_start, p.k_start, p.v_start), (0, 16, 32));
    let p = kda.forward(1);
    assert_eq!(p.conv, ConvPlan { zeros: 0, cached: 3, len: 1, pad: 0, take: 0, keep: 1 });
    assert!(p.resume);
    let p = kda.forward(2);
    assert_eq!(p.conv, ConvPlan { zeros: 0, cached: 3, len: 2, pad: 3, take: 3, keep: 2 });
    kda.clear_cache();
    assert!(!kda.forward(3).resume);
    // A fresh call of two tokens is filled up with a zero column.
    kda.clear_cache();
    let p = kda.forward(2);
    assert_eq!(p.conv, ConvPlan { zeros: 1, cached: 0, len: 2, pad: 3, take: 1, keep: 0 });
}

/// Causal convolution of one channel, carried out as a plan says.
fn convolve(plan: ConvPlan, cache: &[f64], new: &[f64], w: &[f64]) -> (Vec<f64>, Vec<f64>) {
    let mut all = vec![0.0; plan.zeros];
    all.extend(cache[cache.len() - plan.cached..].iter().chain(new));
    let mut padded = vec![0.0; plan.pad];
    padded.extend(&all);
    padded.extend(vec![0.0; plan.pad]);
    let out = (0..plan.len)
        .map(|i| (0..w.len()).map(|j| w[j] * padded[plan.take + i + j]).sum())
        .collect();
    (out, all[plan.keep..plan.keep + w.len() - 1].to_vec())
}

#[test]
fn split_convolutions_match_a_single_pass() {
    let cfg = {
        let mut c = reduced_config();
        c.linear_attn_config.short_conv_kernel_size = 4;
        c
    };
    let w = [0.5, -1.0, 2.0, 0.25];
    let xs: Vec<f64> = (0..9).map(|i| (i * i % 7) as f64 - 2.0).collect();
    let mut one = KdaLinearAttention::new(&cfg, 0);
    let (want, want_cache) = convolve(one.forward(9).conv, &[], &xs, &w);
    for first in [1, 2, 3, 4] {
        let mut split = KdaLinearAttention::new(&cfg, 0);
        let (mut got, mut cache) = convolve(split.forward(first).conv, &[], &xs[..first], &w);
        assert_eq!(got, want[..first]);
        for part in [&xs[first..first + 1], &xs[first + 1..8], &xs[8..9]] {
            let (o, c) = convolve(split.forward(part.len()).conv, &cache, part, &w);
            got.extend(o);
            cache = c;
        }
        assert_eq!(got, want);
        assert_eq!(cache, want_cache);
    }
}

#[test]
fn a_resumed_recurrence_matches_a_single_pass() {
    let step = |state: i64, token: i64| state * 3 + token;
    let cfg = reduced_config();
    let mut kda = KdaLinearAttention::new(&cfg, 0);
    let mut cached = 777; // stale until a call has run
    let tokens = [4i64, 1, 5, 9, 2, 6];
    for part in [&tokens[..4], &tokens[4..5], &tokens[5..]] {
        let plan = kda.forward(part.len());
        let start = if plan.resume { cached } else { 0 };
        cached = part.iter().fold(start, |s, t| step(s, *t));
    }
    assert_eq!(cached, tokens.iter().fold(0, |s, t| step(s, *t)));
}

#[test]
fn clearing_restores_a_fresh_model() {
    let cfg = reduced_config();
    let mut model = Glm5NextForCausalLM::new(&cfg);
    let start = |m: &mut Glm5NextForCausalLM| -> Vec<(bool, usize)> {
        m.model
            .layers
            .iter_mut()
            .map(|l| match l.push_tokens(1, 5, None).unwrap() {
                LayerStart::Linear(p) => (p.resume, p.conv.cached),
                LayerStart::Full(p) => (false, p.keep.len()),
                LayerStart::Shared => (false, 0),
            })
            .collect()
    };
    let first = start(&mut model);
    let second = start(&mut model);
    assert_ne!(first, second);
    model.clear_kv_cache();
    assert_eq!(start(&mut model), first);
}

#[test]
fn generation_stops_at_an_end_token_or_the_length() {
    let eos = vec![7usize, 9];
    assert_eq!(decode_step(10, 1, 64, &eos, 5, 64), (false, 0));
    assert_eq!(decode_step(100, 1, 64, &eos, 5, 64), (false, 36));
    assert_eq!(decode_step(100, 1, 64, &eos, 9, 64), (true, 36));
    assert_eq!(decode_step(100, 64, 64, &eos, 5, 0), (true, 100));
    assert_eq!(decode_step(1, 0, 0, &vec![], 7, 1), (true, 0));
}

#[test]
fn the_sampling_mode_follows_the_options() {
    for t in [0.0, -0.0, -1.5, f64::NEG_INFINITY] {
        assert_eq!(sampling_mode(d(t), Some(40), Some(d(0.9))), SamplingMode::ArgMax, "{t}");
    }
    for t in [0.8, f64::MIN_POSITIVE, f64::INFINITY, f64::NAN, -f64::NAN] {
        let temperature = d(t);
        assert_eq!(sampling_mode(temperature, None, None), SamplingMode::All { temperature });
    }
    let (temperature, p) = (d(0.8), d(0.9));
    assert_eq!(
        sampling_mode(temperature, Some(40), None),
        SamplingMode::TopK { k: 40, temperature }
    );
    assert_eq!(sampling_mode(temperature, None, Some(p)), SamplingMode::TopP { p, temperature });
    assert_eq!(
        sampling_mode(temperature, Some(40), Some(p)),
        SamplingMode::TopKThenTopP { k: 40, p, temperature }
    );
}

/// What a layer of the small model carries: convolution columns, recurrent state, keys.
#[derive(Default, Clone, PartialEq, Debug)]
struct Carried {
    columns: Vec<f64>,
    state: f64,
    keys: Vec<f64>,
}

/// The score of a pool's keys for a query.
type Score = fn(f64, &[f64]) -> f64;

/// One call of a small model in which every row is one number.
fn run(
    model: &mut Glm5NextTextModel,
    carried: &mut [Carried],
    ids: &[u32],
    score: Score,
) -> Vec<f64> {
    let taps = [0.5, -1.0, 2.0, 0.25];
    let mut rows: Vec<f64> = ids.iter().map(|t| (*t as f64 * 0.7).sin()).collect();
    let mut prev: Option<Selection> = None;
    for (layer, c) in model.layers.iter_mut().zip(carried) {
        let ranked = match layer.push_tokens(1, rows.len(), None).unwrap() {
            LayerStart::Linear(plan) => {
                let (mixed, columns) = convolve(plan.conv, &c.columns, &rows, &taps);
                c.columns = columns;
                let mut state = if plan.resume { c.state } else { 0.0 };
                for (row, u) in rows.iter_mut().zip(mixed) {
                    state = 0.5 * state + u;
                    *row += 0.1 * state;
                }
                c.state = state;
                continue;
            }
            LayerStart::Full(pooled) => {
                c.keys.extend(&rows);
                let of = |q: &f64, p: &usize| s(score(*q, &c.keys[p * 2..(p + 1) * 2]) as f32);
                let scores =
                    vec![rows.iter().map(|q| pooled.keep.iter().map(|p| of(q, p)).collect()).collect()];
                Some(PoolScores { pooled, scores })
            }
            LayerStart::Shared => {
                c.keys.extend(&rows);
                None
            }
        };
        let out = layer.forward(rows.len(), None, ranked.as_ref(), prev.as_ref()).unwrap().unwrap();
        for (row, mask) in rows.iter_mut().zip(&out.mask[0]) {
            let on: Vec<f64> =
                c.keys.iter().zip(mask).filter(|(_, m)| m.bits == 0).map(|(x, _)| *x).collect();
            *row = (*row + 3.0 * on.iter().sum::<f64>() / (1.0 + on.len() as f64)).tanh();
        }
        prev = carry_topk(Some(&out), prev.as_ref()).cloned();
    }
    rows.iter().map(|r| r * 10.0 - 1.0).collect()
}

/// Splits a sequence everywhere and compares with one pass.
fn compare_with_one_pass(index_topk: usize, score: Score) {
    let mut cfg = reduced_config();
    cfg.index_topk = index_topk;
    cfg.index_kpool = 2;
    cfg.linear_attn_config.short_conv_kernel_size = 4;
    cfg.num_hidden_layers = 5;
    cfg.layer_types = vec![
        LayerType::LinearAttention,
        LayerType::DeepseekSparseAttention,
        LayerType::LinearAttention,
        LayerType::DeepseekSparseAttention,
        LayerType::DeepseekSparseAttention,
    ];
    cfg.indexer_types = vec![
        IndexerType::Full,
        IndexerType::Full,
        IndexerType::Full,
        IndexerType::Shared,
        IndexerType::Full,
    ];
    let ids: Vec<u32> = vec![1, 2, 3, 4, 5, 9, 17, 6, 30, 11, 2];
    let fresh = || (Glm5NextTextModel::new(&cfg), vec![Carried::default(); 5]);
    let (mut model, mut carried) = fresh();
    let whole = run(&mut model, &mut carried, &ids, score);
    for cut in 1..ids.len() {
        let (mut split, mut parts) = fresh();
        let mut got = run(&mut split, &mut parts, &ids[..cut], score);
        assert_eq!(got, whole[..cut]);
        for part in ids[cut..].chunks(1 + cut % 3) {
            got.extend(run(&mut split, &mut parts, part, score));
        }
        assert_eq!(got, whole, "cut at {cut}");
        assert_eq!(parts, carried, "cut at {cut}");
    }
    // Only the tokens up to a position matter for it.
    let (mut other, mut c) = fresh();
    let mut changed = ids.clone();
    changed[10] = 99;
    assert_eq!(run(&mut other, &mut c, &changed, score)[..10], whole[..10]);
}

#[test]
fn prefill_and_decode_give_what_one_pass_gives() {
    compare_with_one_pass(4, |q, keys| keys.iter().map(|x| (x * q).cos()).sum());
}

#[test]
fn ties_do_not_matter_while_all_pools_fit() {
    // Five complete pools and room for sixteen.
    compare_with_one_pass(32, |_, _| 0.0);
    compare_with_one_pass(32, |q, keys| (keys[0] * q).max(0.0));
    compare_with_one_pass(32, |_, _| f64::NEG_INFINITY);
}

#[test]
fn ties_on_one_side_of_the_cut_do_not_matter() {
    let cases: [(usize, [f32; 4]); 4] = [
        // Ties among the losers, among the winners, and on both sides.
        (2, [0.0, 5.0, 0.0, 0.0]),
        (4, [3.0, 1.0, 3.0, 0.0]),
        (4, [0.0, 2.0, 2.0, 0.0]),
        // Losers that may not be told from pools behind the query.
        (2, [f32::NEG_INFINITY, 1.0, f32::NEG_INFINITY, f32::NEG_INFINITY]),
    ];
    for (index_topk, scores) in cases {
        let mut cfg = reduced_config();
        cfg.index_topk = index_topk;
        let select = |lens: &[usize]| {
            let mut layer = Glm5NextTextAttention::new(&cfg, 3);
            let mut last = Vec::new();
            for len in lens {
                let pooled = layer.push_tokens(1, *len, None).unwrap().unwrap();
                let row: Vec<F32> = pooled.keep.iter().map(|p| s(*scores.get(*p).unwrap_or(&9.0))).collect();
                let ranked = PoolScores { pooled, scores: vec![vec![row; *len]] };
                last = layer.forward(*len, None, Some(&ranked), None).unwrap().mask[0].clone();
            }
            last
        };
        // The query at position 7 sees four pools; more tokens follow in the whole.
        let whole = select(&[12]);
        let step = select(&[7, 1]);
        assert_eq!(seen(&step[0]), seen(&whole[7]), "{scores:?}");
    }
}

#[test]
fn a_short_context_is_selected_whole() {
    let mut cfg = reduced_config();
    cfg.index_topk = 32;
    let mut layer = Glm5NextTextAttention::new(&cfg, 3);
    let pooled = layer.push_tokens(1, 5, None).unwrap().unwrap();
    let scores = vec![vec![vec![s(0.0); pooled.keep.len()]; 5]];
    let out = layer.forward(5, None, Some(&PoolScores { pooled, scores }), None).unwrap();
    for q in 0..5 {
        assert_eq!(seen(&out.mask[0][q]), (0..=q).collect::<Vec<usize>>());
    }
}
