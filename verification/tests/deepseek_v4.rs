//! DeepSeek-V4 configuration.

use candle_lm::activation::Activation;
use candle_lm::deepseek_v4::{
    default_hidden_act, default_norm_topk_prob, default_routed_scaling_factor,
    default_scoring_func, default_tie_word_embeddings, default_topk_method, CompressRates,
    DeepseekV4Config, LayerType, RopeScaling, ScaledRopeType, ScoringFunc, TopkMethod,
};
use candle_lm::float::{F32, F64};
use candle_lm::quantized_deepseek_v4::forward_real;

fn d(v: f64) -> F64 {
    F64 { bits: v.to_bits() }
}

fn s(v: f32) -> F32 {
    F32 { bits: v.to_bits() }
}

/// The configuration of the tiny sample model.
fn sample() -> DeepseekV4Config {
    DeepseekV4Config {
        vocab_size: 256,
        hidden_size: 8,
        moe_intermediate_size: 8,
        num_hidden_layers: 7,
        num_attention_heads: 4,
        num_key_value_heads: 1,
        head_dim: 128,
        q_lora_rank: 128,
        o_lora_rank: 128,
        qk_rope_head_dim: 64,
        n_routed_experts: 8,
        n_shared_experts: 1,
        num_experts_per_tok: 2,
        num_nextn_predict_layers: 1,
        o_groups: 8,
        num_hash_layers: 3,
        index_head_dim: 64,
        index_n_heads: 2,
        index_topk: 1024,
        hc_mult: 4,
        hc_sinkhorn_iters: 20,
        hc_eps: d(1e-6),
        partial_rotary_factor: d(0.5),
        sliding_window: 128,
        max_position_embeddings: 1024,
        rms_norm_eps: d(1e-6),
        rope_theta: s(10_000.0),
        compress_rope_theta: s(160_000.0),
        attention_bias: false,
        attention_dropout: d(0.0),
        mlp_bias: false,
        norm_topk_prob: true,
        output_router_logits: false,
        router_aux_loss_coef: d(0.001),
        router_jitter_noise: d(0.0),
        routed_scaling_factor: d(1.5),
        swiglu_limit: d(10.0),
        initializer_range: d(0.02),
        topk_method: TopkMethod::NoauxTc,
        scoring_func: ScoringFunc::SqrtSoftplus,
        hidden_act: Activation::Silu,
        tie_word_embeddings: false,
        use_cache: true,
        bos_token_id: 0,
        eos_token_id: 1,
        pad_token_id: None,
        compress_rates: CompressRates {
            compressed_sparse_attention: 4,
            heavily_compressed_attention: 128,
        },
        compress_ratios: vec![0, 0, 4, 128, 4, 128, 4, 0],
        layer_types: vec![
            LayerType::SlidingAttention,
            LayerType::SlidingAttention,
            LayerType::CompressedSparseAttention,
            LayerType::HeavilyCompressedAttention,
            LayerType::CompressedSparseAttention,
            LayerType::HeavilyCompressedAttention,
            LayerType::CompressedSparseAttention,
        ],
        rope_scaling: RopeScaling {
            beta_fast: s(32.0),
            beta_slow: s(1.0),
            factor: s(16.0),
            original_max_position_embeddings: 65536,
            scaling_type: ScaledRopeType::Yarn,
        },
    }
}

#[test]
fn deepseek_v4_config() {
    let cfg = sample();

    assert_eq!(cfg.head_dim, 128);
    assert_eq!(cfg.layer_types.len(), 7);
    assert_eq!(cfg.index_topk, 1024);
    assert_eq!(cfg.o_groups, 8);

    assert_eq!(cfg.hidden_size, 8);
    assert_eq!(cfg.num_hidden_layers, 7);
    assert_eq!(cfg.o_lora_rank, 128);
    assert_eq!(cfg.num_hash_layers, 3);
    assert_eq!(cfg.num_nextn_predict_layers, 1);
    assert_eq!(cfg.partial_rotary_factor, d(0.5));
    assert_eq!(cfg.rope_theta, s(10_000.0));
    assert_eq!(cfg.compress_rope_theta, s(160_000.0));
    assert_eq!(cfg.compress_rates.compressed_sparse_attention, 4);
    assert_eq!(cfg.compress_rates.heavily_compressed_attention, 128);
    assert_eq!(cfg.compress_ratios, vec![0, 0, 4, 128, 4, 128, 4, 0]);
    assert_eq!(cfg.topk_method, TopkMethod::NoauxTc);
    assert_eq!(cfg.scoring_func, ScoringFunc::SqrtSoftplus);
    assert_eq!(cfg.rope_scaling.scaling_type, ScaledRopeType::Yarn);

    let layers = cfg.layer_configs();
    assert_eq!(layers.len(), 7);
    assert_eq!(layers[0].layer_type, LayerType::SlidingAttention);
    assert_eq!(layers[0].compress_rate, 0);
    assert_eq!(layers[0].rope_theta, s(10_000.0));
    assert!(!layers[0].use_yarn);
    assert_eq!(layers[2].layer_type, LayerType::CompressedSparseAttention);
    assert_eq!(layers[2].compress_rate, 4);
    assert_eq!(layers[2].rope_theta, s(160_000.0));
    assert!(layers[2].use_yarn);
    assert_eq!(layers[3].layer_type, LayerType::HeavilyCompressedAttention);
    assert_eq!(layers[3].compress_rate, 128);
    assert_eq!(layers[3].rope_theta, s(160_000.0));
    assert!(layers[3].use_yarn);
}

#[test]
fn rates_follow_the_layer_type() {
    let cfg = sample();
    assert_eq!(cfg.compress_rate_for(LayerType::SlidingAttention), 0);
    assert_eq!(cfg.compress_rate_for(LayerType::CompressedSparseAttention), 4);
    assert_eq!(cfg.compress_rate_for(LayerType::HeavilyCompressedAttention), 128);
}

#[test]
fn omitted_fields_have_defaults() {
    assert_eq!(default_hidden_act(), Activation::Silu);
    assert!(!default_tie_word_embeddings());
    assert!(!default_norm_topk_prob());
    assert_eq!(default_routed_scaling_factor(), d(1.0));
    assert_eq!(default_topk_method(), TopkMethod::Greedy);
    assert_eq!(default_scoring_func(), ScoringFunc::Softmax);
}

#[test]
fn a_streaming_pass_runs_every_layer() {
    let plan = forward_real(&sample(), 2, 6);
    assert_eq!(plan.hidden, (2, 6, 4, 8));
    let order: Vec<usize> = plan.layers.iter().map(|l| l.layer).collect();
    assert_eq!(order, vec![0, 1, 2, 3, 4, 5, 6]);
    assert_eq!((plan.embed.name.as_str(), plan.embed.dims), ("model.embed_tokens.weight", vec![256, 8]));
    assert_eq!((plan.norm.name.as_str(), plan.norm.dims), ("model.norm.weight", vec![8]));
    assert_eq!((plan.hc_fn.name.as_str(), plan.hc_fn.dims), ("model.hc_head.hc_fn", vec![4, 32]));
    assert_eq!((plan.hc_base.name.as_str(), plan.hc_base.dims), ("model.hc_head.hc_base", vec![4]));
    assert_eq!(
        (plan.hc_scale.name.as_str(), plan.hc_scale.dims),
        ("model.hc_head.hc_scale", vec![1])
    );
    assert_eq!((plan.head.name.as_str(), plan.head.dims), ("lm_head.weight", vec![256, 8]));
    assert_eq!(plan.logits, (2, 6, 256));
}
