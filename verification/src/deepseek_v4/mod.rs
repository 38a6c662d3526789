//! DeepSeek-V4 configuration.
//!
//! Besides the sizes, the configuration gives every layer its attention type, and
//! by it the compression rate and the rotary base: plain sliding-attention layers
//! use `rope_theta`, compressor layers `compress_rope_theta` with Yarn scaling.

use vstd::prelude::*;

use crate::activation::Activation;
use crate::float::{F32, F64};

pub mod fp8_gemm;
pub mod quantized;

verus! {

/// Per-layer attention type.
#[derive(Debug, Clone, Copy, PartialEq, Eq, Structural)]
pub enum LayerType {
    SlidingAttention,
    CompressedSparseAttention,
    HeavilyCompressedAttention,
}

/// Expert selection method.
#[derive(Debug, Clone, Copy, PartialEq, Eq, Structural)]
pub enum TopkMethod {
    Greedy,
    GroupLimitedGreedy,
    NoauxTc,
}

/// Router scoring function.
#[derive(Debug, Clone, Copy, PartialEq, Eq, Structural)]
pub enum ScoringFunc {
    Softmax,
    SqrtSoftplus,
}

/// Rotary scaling type.
#[derive(Debug, Clone, Copy, PartialEq, Eq, Structural)]
pub enum ScaledRopeType {
    Su,
    Yarn,
    Dynamic,
    Linear,
}

/// Compression rates keyed by compressor layer type.
#[derive(Debug, Clone, Copy, PartialEq, Eq, Structural)]
pub struct CompressRates {
    pub compressed_sparse_attention: usize,
    pub heavily_compressed_attention: usize,
}

/// Rotary scaling parameters (Yarn for compressor layers).
#[derive(Debug, Clone, Copy, PartialEq, Eq, Structural)]
pub struct RopeScaling {
    pub beta_fast: F32,
    pub beta_slow: F32,
    pub factor: F32,
    pub original_max_position_embeddings: usize,
    pub scaling_type: ScaledRopeType,
}

/// The activation of a configuration that names none.
pub fn default_hidden_act() -> (r: Activation)
    ensures
        r == Activation::Silu,
{
    Activation::Silu
}

pub fn default_tie_word_embeddings() -> (r: bool)
    ensures
        !r,
{
    false
}

pub fn default_norm_topk_prob() -> (r: bool)
    ensures
        !r,
{
    false
}

/// One.
pub fn default_routed_scaling_factor() -> (r: F64)
    ensures
        r.bits == 0x3FF0_0000_0000_0000,
{
    F64 { bits: 0x3FF0_0000_0000_0000 }
}

pub fn default_topk_method() -> (r: TopkMethod)
    ensures
        r == TopkMethod::Greedy,
{
    TopkMethod::Greedy
}

pub fn default_scoring_func() -> (r: ScoringFunc)
    ensures
        r == ScoringFunc::Softmax,
{
    ScoringFunc::Softmax
}

/// DeepSeek-V4 configuration.
#[derive(Debug, Clone)]
pub struct DeepseekV4Config {
    pub vocab_size: usize,
    pub hidden_size: usize,
    pub moe_intermediate_size: usize,
    pub num_hidden_layers: usize,
    pub num_attention_heads: usize,
    pub num_key_value_heads: usize,
    pub head_dim: usize,
    pub q_lora_rank: usize,
    pub o_lora_rank: usize,
    pub qk_rope_head_dim: usize,
    pub n_routed_experts: usize,
    pub n_shared_experts: usize,
    pub num_experts_per_tok: usize,
    pub num_nextn_predict_layers: usize,
    pub o_groups: usize,
    pub num_hash_layers: usize,
    pub index_head_dim: usize,
    pub index_n_heads: usize,
    pub index_topk: usize,
    pub hc_mult: usize,
    pub hc_sinkhorn_iters: usize,
    pub hc_eps: F64,
    pub partial_rotary_factor: F64,
    pub sliding_window: usize,
    pub max_position_embeddings: usize,
    pub rms_norm_eps: F64,
    pub rope_theta: F32,
    pub compress_rope_theta: F32,
    pub attention_bias: bool,
    pub attention_dropout: F64,
    pub mlp_bias: bool,
    pub norm_topk_prob: bool,
    pub output_router_logits: bool,
    pub router_aux_loss_coef: F64,
    pub router_jitter_noise: F64,
    pub routed_scaling_factor: F64,
    pub swiglu_limit: F64,
    pub initializer_range: F64,
    pub topk_method: TopkMethod,
    pub scoring_func: ScoringFunc,
    pub hidden_act: Activation,
    pub tie_word_embeddings: bool,
    pub use_cache: bool,
    pub bos_token_id: usize,
    pub eos_token_id: usize,
    pub pad_token_id: Option<usize>,
    pub compress_rates: CompressRates,
    pub compress_ratios: Vec<usize>,
    pub layer_types: Vec<LayerType>,
    pub rope_scaling: RopeScaling,
}

/// Per-layer derived configuration.
#[derive(Debug, Clone, Copy, PartialEq, Eq, Structural)]
pub struct LayerConfig {
    pub layer_type: LayerType,
    /// Compression rate of the layer's attention; zero for sliding attention.
    pub compress_rate: usize,
    /// Rotary base of the layer.
    pub rope_theta: F32,
    /// Whether Yarn scaling applies (compressor layers).
    pub use_yarn: bool,
}

impl DeepseekV4Config {
    /// The compression rate of a layer type.
    pub open spec fn rate_of(&self, layer_type: LayerType) -> usize {
        match layer_type {
            LayerType::SlidingAttention => 0,
            LayerType::CompressedSparseAttention => self.compress_rates.compressed_sparse_attention,
            LayerType::HeavilyCompressedAttention => self.compress_rates.heavily_compressed_attention,
        }
    }

    /// What follows from a layer's type.
    pub open spec fn layer_config_of(&self, layer_type: LayerType) -> LayerConfig {
        let compress = layer_type != LayerType::SlidingAttention;
        LayerConfig {
            layer_type,
            compress_rate: self.rate_of(layer_type),
            rope_theta: if compress {
                self.compress_rope_theta
            } else {
                self.rope_theta
            },
            use_yarn: compress,
        }
    }

    /// Compression rate associated with a given layer type.
    pub fn compress_rate_for(&self, layer_type: LayerType) -> (r: usize)
        ensures
            r == self.rate_of(layer_type),
    {
        match layer_type {
            LayerType::SlidingAttention => 0,
            LayerType::CompressedSparseAttention => self.compress_rates.compressed_sparse_attention,
            LayerType::HeavilyCompressedAttention => self.compress_rates.heavily_compressed_attention,
        }
    }

    /// Derives every layer's compression rate and rotary type.
    pub fn layer_configs(&self) -> (r: Vec<LayerConfig>)
        ensures
            r@.len() == self.layer_types@.len(),
            forall|i: int|
                0 <= i < r@.len() ==> #[trigger] r@[i] == self.layer_config_of(
                    self.layer_types@[i],
                ),
    {
        let mut out: Vec<LayerConfig> = Vec::with_capacity(self.layer_types.len());
        let mut i: usize = 0;
        while i < self.layer_types.len()
            invariant
                i <= self.layer_types@.len(),
                out@.len() == i,
                forall|a: int|
                    0 <= a < i ==> #[trigger] out@[a] == self.layer_config_of(
                        self.layer_types@[a],
                    ),
            decreases self.layer_types@.len() - i,
        {
            let layer_type: LayerType = self.layer_types[i];
            let compress: bool = layer_type != LayerType::SlidingAttention;
            out.push(
                LayerConfig {
                    layer_type,
                    compress_rate: self.compress_rate_for(layer_type),
                    rope_theta: if compress {
                        self.compress_rope_theta
                    } else {
                        self.rope_theta
                    },
                    use_yarn: compress,
                },
            );
            i = i + 1;
        }
        out
    }
}

/// What the manifold-constrained hyper-connection reads of a configuration.
pub trait HyperConnectionConfig {
    fn hc_mult(&self) -> usize;

    fn hc_sinkhorn_iters(&self) -> usize;

    fn hc_eps(&self) -> F64;

    fn hidden_size(&self) -> usize;

    fn rms_norm_eps(&self) -> F64;
}

/// What the routed experts read of a configuration.
pub trait MoeExpertsConfig {
    fn n_routed_experts(&self) -> usize;

    fn moe_intermediate_size(&self) -> usize;

    fn hidden_size(&self) -> usize;

    fn swiglu_limit(&self) -> F64;
}

/// What a layer's type decides: sliding attention is not compressed and turns by the plain
/// rotary base; both kinds of compressed attention use their own rate, the base for
/// compressed layers and Yarn scaling.
pub proof fn law_layer_types_decide(cfg: &DeepseekV4Config, t: LayerType)
    ensures
        cfg.layer_config_of(t).layer_type == t,
        cfg.layer_config_of(t).compress_rate == cfg.rate_of(t),
        cfg.rate_of(LayerType::SlidingAttention) == 0,
        cfg.rate_of(LayerType::CompressedSparseAttention)
            == cfg.compress_rates.compressed_sparse_attention,
        cfg.rate_of(LayerType::HeavilyCompressedAttention)
            == cfg.compress_rates.heavily_compressed_attention,
        t == LayerType::SlidingAttention ==> cfg.layer_config_of(t).rope_theta == cfg.rope_theta
            && !cfg.layer_config_of(t).use_yarn,
        t == LayerType::CompressedSparseAttention || t == LayerType::HeavilyCompressedAttention
            ==> cfg.layer_config_of(t).rope_theta == cfg.compress_rope_theta
            && cfg.layer_config_of(t).use_yarn,
{
}

} // verus!
