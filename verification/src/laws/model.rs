//! Configurations, the layers that are built from them, and the generation loop.

use vstd::prelude::*;

use crate::deepseek_v4::{
    self, DeepseekV4Config, HyperConnectionConfig, LayerConfig, MoeExpertsConfig,
};
use crate::float::F64;
use crate::glm5_next::attention::{
    build_indexer, law_indexers_follow_the_schedule, law_projections_compose, next_is_shared,
    Attended, Glm5NextTextAttention, Selection,
};
use crate::glm5_next::generate::{at_most_zero, decode_step, sampling_mode, SamplingMode};
use crate::glm5_next::indexer::Glm5NextTextIndexer;
use crate::glm5_next::kda::{law_linear_layer_sizes, KdaLinearAttention};
use crate::glm5_next::model::{
    carry_topk, law_layers_follow_the_schedules, Glm5NextDecoderLayer,
    Glm5NextForCausalLM,
};
use crate::glm5_next::router::{law_moe_sizes, Glm5NextMLP, Glm5NextTextMoE, Glm5NextTopkRouter};
use crate::glm5_next::{
    law_configured_schedules_hold, law_default_attention_schedule, law_default_indexer_schedule,
    law_default_mlp_schedule, law_linear_attention_defaults, law_listed_layers, Glm5NextTextConfig,
    IndexerType, LayerType, MlpLayerType,
};

verus! {

/// A sparse layer's projections compose: the values of all heads go into the output
/// projection, and every projection takes what the one before it gives.
pub proof fn law_attention_projections(
    cfg: &Glm5NextTextConfig,
    layer_idx: usize,
    a: Glm5NextTextAttention,
)
    requires
        call_ensures(Glm5NextTextAttention::new, (cfg, layer_idx), a),
    ensures
        a.q_a_proj.inp == cfg.hidden_size,
        a.kv_a_proj.inp == cfg.hidden_size,
        a.q_b_proj.inp == a.q_a_proj.out,
        a.q_b_proj.out == a.num_heads * (a.qk_nope_head_dim + a.qk_rope_head_dim),
        a.kv_a_proj.out == a.kv_b_proj.inp + a.qk_rope_head_dim,
        a.kv_b_proj.out == a.num_heads * a.qk_nope_head_dim + a.o_proj.inp,
        a.o_proj.inp == a.num_heads * a.v_head_dim,
        a.o_proj.out == cfg.hidden_size,
        a.num_heads == cfg.num_attention_heads,
        a.v_head_dim == cfg.v_head_dim,
        a.qk_nope_head_dim == cfg.qk_nope_head_dim,
        a.qk_rope_head_dim == cfg.qk_rope_head_dim,
        a.kv_lora_rank == cfg.kv_lora_rank,
        a.q_a_proj.out == cfg.q_lora_rank,
        a.kv_cache is None,
{
    law_projections_compose(&a, cfg, layer_idx as int);
}

/// A layer runs an indexer exactly where the schedule names it as full, or names it not at
/// all, and its selection is handed on where the next layer runs none.
pub proof fn law_indexers(
    cfg: &Glm5NextTextConfig,
    layer_idx: usize,
    own: Option<Glm5NextTextIndexer>,
    next: Option<Glm5NextTextIndexer>,
    handed: bool,
)
    requires
        layer_idx < usize::MAX,
        call_ensures(build_indexer, (cfg, layer_idx), own),
        call_ensures(build_indexer, (cfg, (layer_idx + 1) as usize), next),
        call_ensures(next_is_shared, (cfg, layer_idx), handed),
    ensures
        layer_idx < cfg.indexer_types@.len() ==> (own is Some
            <==> cfg.indexer_types@[layer_idx as int] == IndexerType::Full),
        layer_idx >= cfg.indexer_types@.len() ==> own is Some,
        layer_idx + 1 < cfg.indexer_types@.len() ==> handed == (next is None),
        cfg.indexer_types@.len() == 0 ==> !handed,
        own matches Some(i) ==> i.index_topk == cfg.index_topk && i.index_kpool == cfg.index_kpool
            && i.num_heads == cfg.index_n_heads && i.head_dim == cfg.index_head_dim
            && i.always_select_tail == cfg.index_kpool_always_select_tail,
{
    law_indexers_follow_the_schedule(cfg, layer_idx as int);
}

/// A linear layer convolves the queries, keys and values of all its heads side by side.
pub proof fn law_linear_layers(
    cfg: &Glm5NextTextConfig,
    layer_idx: usize,
    a: KdaLinearAttention,
)
    requires
        call_ensures(KdaLinearAttention::new::<Glm5NextTextConfig>, (cfg, layer_idx), a),
    ensures
        a.hidden_size == cfg.hidden_size,
        a.layer_index == layer_idx,
        a.qkv_dim == a.num_heads * a.head_dim,
        a.conv_dim == a.qkv_dim + a.qkv_dim + a.qkv_dim,
        cfg.linear_attn_config.num_heads > 0 ==> a.num_heads == cfg.linear_attn_config.num_heads,
        cfg.linear_attn_config.num_heads == 0 ==> a.num_heads == 64,
        cfg.linear_attn_config.head_dim > 0 ==> a.head_dim == cfg.linear_attn_config.head_dim,
        cfg.linear_attn_config.head_dim == 0 ==> a.head_dim == 128,
        cfg.linear_attn_config.short_conv_kernel_size > 0 ==> a.conv_kernel
            == cfg.linear_attn_config.short_conv_kernel_size,
        cfg.linear_attn_config.short_conv_kernel_size == 0 ==> a.conv_kernel == 4,
        a.rms_norm_eps == cfg.rms_norm_eps,
        a.activation == cfg.hidden_act,
        !a.cached,
{
    law_linear_layer_sizes(&a, cfg, layer_idx as int);
    law_linear_attention_defaults(cfg);
}

/// The feed-forward parts: router and shared experts read the layer's states, and the shared
/// experts are as wide as that many experts side by side.
pub proof fn law_feed_forward_parts(
    cfg: &Glm5NextTextConfig,
    moe: Glm5NextTextMoE,
    router: Glm5NextTopkRouter,
    mlp: Glm5NextMLP,
    inter: usize,
)
    requires
        call_ensures(Glm5NextTextMoE::new, (cfg,), moe),
        call_ensures(Glm5NextTopkRouter::new, (cfg,), router),
        call_ensures(Glm5NextMLP::new, (cfg.hidden_size, inter, cfg.swiglu_limit), mlp),
        inter == cfg.moe_intermediate_size * cfg.n_shared_experts,
    ensures
        moe.gate == router,
        moe.shared_experts == mlp,
        router.hidden == cfg.hidden_size,
        router.num_experts == cfg.n_routed_experts,
        router.top_k == cfg.num_experts_per_tok,
        router.num_group == cfg.n_group,
        router.topk_group == cfg.topk_group,
        router.norm_topk_prob == cfg.norm_topk_prob,
        router.routed_scaling_factor == cfg.routed_scaling_factor,
        mlp.hidden_size == cfg.hidden_size,
        mlp.intermediate_size == inter,
        mlp.limit == cfg.swiglu_limit,
{
    law_moe_sizes(&moe, cfg);
}

/// A layer is what the schedules say.
pub proof fn law_layers(
    cfg: &Glm5NextTextConfig,
    layer_idx: usize,
    layer: Glm5NextDecoderLayer,
    sparse: bool,
    routed: bool,
)
    requires
        call_ensures(Glm5NextDecoderLayer::new, (cfg, layer_idx), layer),
        call_ensures(Glm5NextDecoderLayer::is_sparse_attention, (&layer,), sparse),
        call_ensures(Glm5NextDecoderLayer::is_sparse_mlp, (&layer,), routed),
    ensures
        layer_idx < cfg.layer_types@.len() ==> (sparse <==> cfg.layer_types@[layer_idx as int]
            == LayerType::DeepseekSparseAttention),
        layer_idx < cfg.mlp_layer_types@.len() ==> (routed
            <==> cfg.mlp_layer_types@[layer_idx as int] == MlpLayerType::Sparse),
        cfg.layer_types@.len() == 0 && layer_idx < cfg.num_hidden_layers ==> (sparse <==> (layer_idx
            + 1) % 4 == 0),
        cfg.mlp_layer_types@.len() == 0 && layer_idx < cfg.num_hidden_layers ==> (routed
            <==> layer_idx >= cfg.first_k_dense_replace),
        layer.is_fresh(),
{
    let i = layer_idx as int;
    law_layers_follow_the_schedules(&layer, cfg, i);
    law_configured_schedules_hold(cfg);
    if cfg.layer_types@.len() == 0 && layer_idx < cfg.num_hidden_layers {
        law_default_attention_schedule(cfg, i / 4, i % 4);
    }
    if cfg.mlp_layer_types@.len() == 0 && layer_idx < cfg.num_hidden_layers {
        law_default_mlp_schedule(cfg, i);
    }
}

/// The whole model: one layer for every hidden layer, each built for its own place, and an
/// output projection from the hidden states to the vocabulary.
pub proof fn law_whole_model(
    cfg: &Glm5NextTextConfig,
    lm: Glm5NextForCausalLM,
    batch: usize,
    seq: usize,
    shape: (usize, usize, usize),
    i: int,
)
    requires
        call_ensures(Glm5NextForCausalLM::new, (cfg,), lm),
        call_ensures(Glm5NextForCausalLM::logits_shape, (&lm, batch, seq), shape),
        0 <= i < cfg.num_hidden_layers,
    ensures
        lm.model.layers@.len() == cfg.num_hidden_layers,
        lm.model.layers@[i].built(cfg, i),
        lm.model.layers@[i].is_fresh(),
        lm.lm_head.inp == lm.model.hidden_size,
        lm.lm_head.out == lm.model.vocab_size,
        !lm.lm_head.bias,
        lm.model.hidden_size == cfg.hidden_size,
        lm.model.vocab_size == cfg.vocab_size,
        lm.model.hc_mult == cfg.hc_mult,
        shape.0 == batch && shape.1 == seq && shape.2 == cfg.vocab_size,
{
}

/// What is handed to the next layer: a sparse layer's own selection, and through a linear
/// layer what came to it.
pub proof fn law_handed_selections<'a>(
    attended: Option<&'a Attended>,
    prev: Option<&'a Selection>,
    r: Option<&'a Selection>,
)
    requires
        call_ensures(carry_topk, (attended, prev), r),
    ensures
        attended is None ==> r == prev,
        attended is Some ==> r == Some(&attended->Some_0.topk),
{
}

/// The schedules that a configuration resolves to.
pub proof fn law_resolved_schedules(
    cfg: &Glm5NextTextConfig,
    attn: Vec<LayerType>,
    mlp: Vec<MlpLayerType>,
    indexer: Vec<IndexerType>,
    i: int,
)
    requires
        call_ensures(Glm5NextTextConfig::effective_layer_types, (cfg,), attn),
        call_ensures(Glm5NextTextConfig::effective_mlp_layer_types, (cfg,), mlp),
        call_ensures(Glm5NextTextConfig::effective_indexer_types, (cfg,), indexer),
        0 <= i < cfg.num_hidden_layers,
    ensures
        cfg.layer_types@.len() > 0 ==> attn@ == cfg.layer_types@,
        cfg.mlp_layer_types@.len() > 0 ==> mlp@ == cfg.mlp_layer_types@,
        cfg.indexer_types@.len() > 0 ==> indexer@ == cfg.indexer_types@,
        cfg.layer_types@.len() == 0 ==> attn@.len() == cfg.num_hidden_layers && (attn@[i]
            == LayerType::DeepseekSparseAttention <==> (i + 1) % 4 == 0),
        cfg.mlp_layer_types@.len() == 0 ==> mlp@.len() == cfg.num_hidden_layers && (mlp@[i]
            == MlpLayerType::Dense <==> i < cfg.first_k_dense_replace),
        cfg.indexer_types@.len() == 0 ==> indexer@.len() == cfg.num_hidden_layers && indexer@[i]
            == IndexerType::Full,
{
    law_configured_schedules_hold(cfg);
    if cfg.layer_types@.len() == 0 {
        law_default_attention_schedule(cfg, i / 4, i % 4);
    }
    if cfg.mlp_layer_types@.len() == 0 {
        law_default_mlp_schedule(cfg, i);
    }
    if cfg.indexer_types@.len() == 0 {
        law_default_indexer_schedule(cfg, i);
    }
}

/// The lists of sparse, linear and routed layers hold exactly the layers of their kind.
pub proof fn law_layer_lists(
    cfg: &Glm5NextTextConfig,
    attn: Vec<LayerType>,
    mlp: Vec<MlpLayerType>,
    dsa: Vec<usize>,
    kda: Vec<usize>,
    moe: Vec<usize>,
    i: usize,
)
    requires
        call_ensures(Glm5NextTextConfig::effective_layer_types, (cfg,), attn),
        call_ensures(Glm5NextTextConfig::effective_mlp_layer_types, (cfg,), mlp),
        call_ensures(Glm5NextTextConfig::dsa_layer_indices, (cfg,), dsa),
        call_ensures(Glm5NextTextConfig::kda_layer_indices, (cfg,), kda),
        call_ensures(Glm5NextTextConfig::sparse_mlp_layer_indices, (cfg,), moe),
        attn@.len() <= usize::MAX,
        mlp@.len() <= usize::MAX,
    ensures
        dsa@.contains(i) <==> i < attn@.len() && attn@[i as int]
            == LayerType::DeepseekSparseAttention,
        kda@.contains(i) <==> i < attn@.len() && attn@[i as int] == LayerType::LinearAttention,
        moe@.contains(i) <==> i < mlp@.len() && mlp@[i as int] == MlpLayerType::Sparse,
{
    law_listed_layers(cfg, i as int);
}

/// The linear-attention settings that a configuration resolves to.
pub proof fn law_resolved_linear_settings(
    cfg: &Glm5NextTextConfig,
    heads: usize,
    width: usize,
    kernel: usize,
    floor: Option<F64>,
)
    requires
        call_ensures(Glm5NextTextConfig::linear_num_heads, (cfg,), heads),
        call_ensures(Glm5NextTextConfig::linear_head_dim, (cfg,), width),
        call_ensures(Glm5NextTextConfig::linear_conv_kernel_dim, (cfg,), kernel),
        call_ensures(Glm5NextTextConfig::linear_lower_bound, (cfg,), floor),
    ensures
        heads > 0 && width > 0 && kernel > 0,
        cfg.linear_attn_config.num_heads > 0 ==> heads == cfg.linear_attn_config.num_heads,
        cfg.linear_attn_config.head_dim > 0 ==> width == cfg.linear_attn_config.head_dim,
        cfg.linear_attn_config.short_conv_kernel_size > 0 ==> kernel
            == cfg.linear_attn_config.short_conv_kernel_size,
        cfg.linear_attn_config.num_heads == 0 ==> heads == 64,
        cfg.linear_attn_config.head_dim == 0 ==> width == 128,
        cfg.linear_attn_config.short_conv_kernel_size == 0 ==> kernel == 4,
        cfg.linear_attn_config.gate_lower_bound is Some ==> floor
            == cfg.linear_attn_config.gate_lower_bound,
        cfg.linear_attn_config.gate_lower_bound is None ==> floor == cfg.linear_lower_bound,
{
    law_linear_attention_defaults(cfg);
}

/// The layers of a DeepSeek configuration: one entry for every layer type, in order; sliding
/// attention is not compressed and keeps the plain rotary base.
pub proof fn law_derived_layers(
    cfg: &DeepseekV4Config,
    layers: Vec<LayerConfig>,
    rate: usize,
    i: int,
)
    requires
        call_ensures(DeepseekV4Config::layer_configs, (cfg,), layers),
        0 <= i < cfg.layer_types@.len(),
        call_ensures(DeepseekV4Config::compress_rate_for, (cfg, cfg.layer_types@[i]), rate),
    ensures
        layers@.len() == cfg.layer_types@.len(),
        layers@[i].layer_type == cfg.layer_types@[i],
        layers@[i].compress_rate == rate,
        cfg.layer_types@[i] is SlidingAttention ==> rate == 0 && !layers@[i].use_yarn
            && layers@[i].rope_theta == cfg.rope_theta,
        cfg.layer_types@[i] is CompressedSparseAttention ==> rate
            == cfg.compress_rates.compressed_sparse_attention,
        cfg.layer_types@[i] is HeavilyCompressedAttention ==> rate
            == cfg.compress_rates.heavily_compressed_attention,
        !(cfg.layer_types@[i] is SlidingAttention) ==> layers@[i].use_yarn && layers@[i].rope_theta
            == cfg.compress_rope_theta,
{
    deepseek_v4::law_layer_types_decide(cfg, cfg.layer_types@[i]);
}

/// The generation loop stops at an end token or when enough was sampled, and never before; it
/// penalises the last `repeat_last_n` tokens, or all where there are fewer.
pub proof fn law_generation_steps(
    seen: usize,
    generated: usize,
    sample_len: usize,
    eos: &Vec<usize>,
    token: u32,
    repeat_last_n: usize,
    r: (bool, usize),
)
    requires
        call_ensures(decode_step, (seen, generated, sample_len, eos, token, repeat_last_n), r),
    ensures
        eos@.contains(token as usize) ==> r.0,
        generated >= sample_len ==> r.0,
        r.0 ==> eos@.contains(token as usize) || generated >= sample_len,
        r.1 <= seen,
        seen - r.1 <= repeat_last_n,
        r.1 > 0 ==> seen - r.1 == repeat_last_n,
{
}

/// Sampling is greedy at a temperature of at most zero, and otherwise takes exactly the
/// restrictions that are given.
pub proof fn law_sampling(
    temperature: F64,
    top_k: Option<usize>,
    top_p: Option<F64>,
    r: SamplingMode,
)
    requires
        call_ensures(sampling_mode, (temperature, top_k, top_p), r),
    ensures
        temperature.bits == 0 ==> r is ArgMax,
        0 < temperature.bits < 0x8000_0000_0000_0000 ==> !(r is ArgMax),
        0x8000_0000_0000_0000 <= temperature.bits <= 0xFFF0_0000_0000_0000 ==> r is ArgMax,
        r is All ==> top_k is None && top_p is None && r->All_temperature == temperature,
        r is TopK ==> top_k == Some(r->TopK_k) && top_p is None && r->TopK_temperature
            == temperature,
        r is TopP ==> top_k is None && top_p == Some(r->TopP_p) && r->TopP_temperature
            == temperature,
        r is TopKThenTopP ==> top_k == Some(r->TopKThenTopP_k) && top_p == Some(
            r->TopKThenTopP_p,
        ) && r->TopKThenTopP_temperature == temperature,
{
    if temperature.bits < 0x8000_0000_0000_0000 {
        assert(temperature.bits % 0x8000_0000_0000_0000 == temperature.bits);
    } else {
        assert(temperature.bits % 0x8000_0000_0000_0000 == temperature.bits - 0x8000_0000_0000_0000);
    }
    assert(at_most_zero(temperature) <==> r is ArgMax);
}

/// What the routed experts and the residual streams read of a configuration.
pub proof fn law_configuration_views(
    cfg: &Glm5NextTextConfig,
    experts: usize,
    inter: usize,
    hidden: usize,
    limit: F64,
    mult: usize,
    iters: usize,
    eps: F64,
    width: usize,
    norm: F64,
)
    requires
        call_ensures(
            <Glm5NextTextConfig as MoeExpertsConfig>::n_routed_experts,
            (cfg,),
            experts,
        ),
        call_ensures(
            <Glm5NextTextConfig as MoeExpertsConfig>::moe_intermediate_size,
            (cfg,),
            inter,
        ),
        call_ensures(<Glm5NextTextConfig as MoeExpertsConfig>::hidden_size, (cfg,), hidden),
        call_ensures(<Glm5NextTextConfig as MoeExpertsConfig>::swiglu_limit, (cfg,), limit),
        call_ensures(<Glm5NextTextConfig as HyperConnectionConfig>::hc_mult, (cfg,), mult),
        call_ensures(
            <Glm5NextTextConfig as HyperConnectionConfig>::hc_sinkhorn_iters,
            (cfg,),
            iters,
        ),
        call_ensures(<Glm5NextTextConfig as HyperConnectionConfig>::hc_eps, (cfg,), eps),
        call_ensures(<Glm5NextTextConfig as HyperConnectionConfig>::hidden_size, (cfg,), width),
        call_ensures(<Glm5NextTextConfig as HyperConnectionConfig>::rms_norm_eps, (cfg,), norm),
    ensures
        experts == cfg.n_routed_experts,
        inter == cfg.moe_intermediate_size,
        hidden == cfg.hidden_size,
        limit == cfg.swiglu_limit,
        mult == cfg.hc_mult,
        iters == cfg.hc_sinkhorn_iters,
        eps == cfg.hc_eps,
        width == cfg.hidden_size,
        norm == cfg.rms_norm_eps,
{
}

} // verus!
