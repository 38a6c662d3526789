//! GLM-5.3-Flash text configuration.
//!
//! The configuration resolves the per-layer attention, feed-forward and indexer
//! schedules: where a checkpoint leaves one out, its default applies.

use vstd::prelude::*;

use crate::activation::Activation;
use crate::float::{F32, F64};
use crate::indices::{indices_where, law_indices_where};

pub mod attention;
pub mod decode;
mod experts;
pub mod generate;
mod hyper;
pub mod indexer;
pub mod kda;
pub mod model;
pub mod pass;
pub mod router;
pub mod select;

verus! {

pub fn default_num_key_value_heads() -> (r: usize)
    ensures
        r == 64,
{
    64
}

pub fn default_n_shared_experts() -> (r: usize)
    ensures
        r == 1,
{
    1
}

/// `1.0`.
pub fn default_routed_scaling_factor() -> (r: F64)
    ensures
        r == (F64 { bits: 0x3FF0_0000_0000_0000 }),
{
    F64 { bits: 0x3FF0_0000_0000_0000 }
}

pub fn default_qk_rope_head_dim() -> (r: usize)
    ensures
        r == 0,
{
    0
}

pub fn default_n_group() -> (r: usize)
    ensures
        r == 1,
{
    1
}

pub fn default_topk_group() -> (r: usize)
    ensures
        r == 1,
{
    1
}

pub fn default_norm_topk_prob() -> (r: bool)
    ensures
        r,
{
    true
}

pub fn default_hidden_act() -> (r: Activation)
    ensures
        r == Activation::Silu,
{
    Activation::Silu
}

/// `0.02`.
pub fn default_initializer_range() -> (r: F32)
    ensures
        r == (F32 { bits: 0x3CA3_D70A }),
{
    F32 { bits: 0x3CA3_D70A }
}

/// `1e-5`.
pub fn default_rms_norm_eps() -> (r: F64)
    ensures
        r == (F64 { bits: 0x3EE4_F8B5_88E3_68F1 }),
{
    F64 { bits: 0x3EE4_F8B5_88E3_68F1 }
}

pub fn default_use_cache() -> (r: bool)
    ensures
        r,
{
    true
}

pub fn default_pad_token_id() -> (r: usize)
    ensures
        r == 154820,
{
    154820
}

pub fn default_tie_word_embeddings() -> (r: bool)
    ensures
        !r,
{
    false
}

pub fn default_attention_bias() -> (r: bool)
    ensures
        !r,
{
    false
}

/// `0.0`.
pub fn default_attention_dropout() -> (r: F64)
    ensures
        r == (F64 { bits: 0x0000_0000_0000_0000 }),
{
    F64 { bits: 0x0000_0000_0000_0000 }
}

pub fn default_index_topk() -> (r: usize)
    ensures
        r == 2048,
{
    2048
}

pub fn default_index_head_dim() -> (r: usize)
    ensures
        r == 128,
{
    128
}

pub fn default_index_n_heads() -> (r: usize)
    ensures
        r == 32,
{
    32
}

pub fn default_head_dim() -> (r: usize)
    ensures
        r == 0,
{
    0
}

/// `10.0`.
pub fn default_swiglu_limit() -> (r: F64)
    ensures
        r == (F64 { bits: 0x4024_0000_0000_0000 }),
{
    F64 { bits: 0x4024_0000_0000_0000 }
}

/// `Some(-5.0)`.
pub fn default_linear_lower_bound() -> (r: Option<F64>)
    ensures
        r == Some(F64 { bits: 0xC014_0000_0000_0000 }),
{
    Some(F64 { bits: 0xC014_0000_0000_0000 })
}

pub fn default_hc_mult() -> (r: usize)
    ensures
        r == 4,
{
    4
}

/// `1e-6`.
pub fn default_hc_eps() -> (r: F64)
    ensures
        r == (F64 { bits: 0x3EB0_C6F7_A0B5_ED8D }),
{
    F64 { bits: 0x3EB0_C6F7_A0B5_ED8D }
}

pub fn default_hc_sinkhorn_iters() -> (r: usize)
    ensures
        r == 20,
{
    20
}

pub fn default_output_router_logits() -> (r: bool)
    ensures
        !r,
{
    false
}

/// `0.001`.
pub fn default_router_aux_loss_coef() -> (r: F64)
    ensures
        r == (F64 { bits: 0x3F50_624D_D2F1_A9FC }),
{
    F64 { bits: 0x3F50_624D_D2F1_A9FC }
}

pub fn default_index_kpool() -> (r: usize)
    ensures
        r == 16,
{
    16
}

pub fn default_index_kpool_always_select_tail() -> (r: bool)
    ensures
        r,
{
    true
}

pub fn default_first_k_dense_replace() -> (r: usize)
    ensures
        r == 3,
{
    3
}

pub fn default_mhc() -> (r: bool)
    ensures
        r,
{
    true
}

pub fn default_mla_use_nope() -> (r: bool)
    ensures
        r,
{
    true
}

pub fn default_index_kpool_compress() -> (r: bool)
    ensures
        r,
{
    true
}

pub fn default_index_share_for_mtp_iteration() -> (r: bool)
    ensures
        !r,
{
    false
}

pub fn default_indexer_rope_interleave() -> (r: bool)
    ensures
        r,
{
    true
}

/// Per-layer attention kind: linear (KDA) layers alternate with sparse-attention
/// (DSA / MLA) layers.
#[derive(Debug, Clone, Copy, PartialEq, Eq, Structural)]
pub enum LayerType {
    LinearAttention,
    DeepseekSparseAttention,
}

/// Per-layer feed-forward kind: dense MLP or sparse (routed) MoE.
#[derive(Debug, Clone, Copy, PartialEq, Eq, Structural)]
pub enum MlpLayerType {
    Dense,
    Sparse,
}

/// Per-layer indexer mode: `Full` runs the indexer, `Shared` reuses the previous
/// full layer's selection.
#[derive(Debug, Clone, Copy, PartialEq, Eq, Structural)]
pub enum IndexerType {
    Full,
    Shared,
}

/// Parameters of the linear-attention layers.
#[derive(Debug, Clone)]
pub struct LinearAttnConfig {
    pub num_heads: usize,
    pub gate_lower_bound: Option<F64>,
    pub head_dim: usize,
    pub short_conv_kernel_size: usize,
    pub kda_layers: Vec<usize>,
    pub full_attn_layers: Vec<usize>,
}

impl Default for LinearAttnConfig {
    fn default() -> (r: Self)
        ensures
            r.num_heads == 64,
            r.gate_lower_bound == Some(F64 { bits: 0xC014_0000_0000_0000 }),
            r.head_dim == 128,
            r.short_conv_kernel_size == 4,
            r.kda_layers@ == Seq::<usize>::empty(),
            r.full_attn_layers@ == Seq::<usize>::empty(),
    {
        LinearAttnConfig {
            num_heads: 64,
            gate_lower_bound: Some(F64 { bits: 0xC014_0000_0000_0000 }),
            head_dim: 128,
            short_conv_kernel_size: 4,
            kda_layers: Vec::new(),
            full_attn_layers: Vec::new(),
        }
    }
}

/// GLM-5.3-Flash text configuration.
#[derive(Debug, Clone)]
pub struct Glm5NextTextConfig {
    pub vocab_size: usize,
    pub hidden_size: usize,
    pub intermediate_size: usize,
    pub moe_intermediate_size: usize,
    pub num_hidden_layers: usize,
    pub num_attention_heads: usize,
    pub num_key_value_heads: usize,
    pub n_shared_experts: usize,
    pub n_routed_experts: usize,
    pub routed_scaling_factor: F64,
    pub kv_lora_rank: usize,
    pub q_lora_rank: usize,
    pub qk_rope_head_dim: usize,
    pub v_head_dim: usize,
    pub qk_nope_head_dim: usize,
    pub n_group: usize,
    pub topk_group: usize,
    pub num_experts_per_tok: usize,
    pub norm_topk_prob: bool,
    pub hidden_act: Activation,
    pub max_position_embeddings: usize,
    pub initializer_range: F32,
    pub rms_norm_eps: F64,
    pub use_cache: bool,
    pub pad_token_id: usize,
    pub bos_token_id: Option<usize>,
    pub eos_token_id: Option<Vec<usize>>,
    pub tie_word_embeddings: bool,
    pub mlp_layer_types: Vec<MlpLayerType>,
    pub attention_bias: bool,
    pub attention_dropout: F64,
    pub index_topk: usize,
    pub index_head_dim: usize,
    pub index_n_heads: usize,
    pub head_dim: usize,
    pub layer_types: Vec<LayerType>,
    pub indexer_types: Vec<IndexerType>,
    pub swiglu_limit: F64,
    pub linear_attn_config: LinearAttnConfig,
    pub linear_lower_bound: Option<F64>,
    pub hc_mult: usize,
    pub hc_eps: F64,
    pub hc_sinkhorn_iters: usize,
    pub output_router_logits: bool,
    pub router_aux_loss_coef: F64,
    pub index_kpool: usize,
    pub index_kpool_always_select_tail: bool,
    pub first_k_dense_replace: usize,
    pub mhc: bool,
    pub mla_use_nope: bool,
    pub index_kpool_compress: bool,
    pub index_share_for_mtp_iteration: bool,
    pub indexer_rope_interleave: bool,
}

/// The default attention kind of layer `i`: every fourth layer is sparse.
pub open spec fn default_layer_type(i: int) -> LayerType {
    if i % 4 == 3 {
        LayerType::DeepseekSparseAttention
    } else {
        LayerType::LinearAttention
    }
}

/// Every scheduled layer is listed either as sparse or as linear, and none as both.
pub proof fn law_layer_kinds_partition(cfg: &Glm5NextTextConfig, i: int)
    requires
        cfg.layer_schedule().len() <= usize::MAX,
        0 <= i < cfg.layer_schedule().len(),
    ensures
        ({
            let n = cfg.layer_schedule().len();
            let sparse = indices_where(
                cfg.layer_schedule().map_values(
                    |t: LayerType| t == LayerType::DeepseekSparseAttention,
                ),
                n,
            );
            let linear = indices_where(
                cfg.layer_schedule().map_values(|t: LayerType| t == LayerType::LinearAttention),
                n,
            );
            sparse.contains(i as usize) != linear.contains(i as usize)
        }),
{
    let types = cfg.layer_schedule();
    let n = types.len();
    let is_sparse = types.map_values(|t: LayerType| t == LayerType::DeepseekSparseAttention);
    let is_linear = types.map_values(|t: LayerType| t == LayerType::LinearAttention);
    law_indices_where(is_sparse, n);
    law_indices_where(is_linear, n);
    let sparse = indices_where(is_sparse, n);
    let linear = indices_where(is_linear, n);
    if sparse.contains(i as usize) {
        let a = choose|a: int| 0 <= a < sparse.len() && sparse[a] == i as usize;
        assert(is_sparse[sparse[a] as int]);
    }
    if linear.contains(i as usize) {
        let a = choose|a: int| 0 <= a < linear.len() && linear[a] == i as usize;
        assert(is_linear[linear[a] as int]);
    }
    assert(is_sparse[i] || is_linear[i]);
}

impl Glm5NextTextConfig {
    /// The attention schedule: as configured, or the default.
    pub open spec fn layer_schedule(&self) -> Seq<LayerType> {
        if self.layer_types@.len() > 0 {
            self.layer_types@
        } else {
            Seq::new(self.num_hidden_layers as nat, |i: int| default_layer_type(i))
        }
    }

    /// The feed-forward schedule: as configured, or dense layers first.
    pub open spec fn mlp_schedule(&self) -> Seq<MlpLayerType> {
        if self.mlp_layer_types@.len() > 0 {
            self.mlp_layer_types@
        } else {
            Seq::new(
                self.num_hidden_layers as nat,
                |i: int|
                    if i < self.first_k_dense_replace {
                        MlpLayerType::Dense
                    } else {
                        MlpLayerType::Sparse
                    },
            )
        }
    }

    /// The indexer schedule: as configured, or full everywhere.
    pub open spec fn indexer_schedule(&self) -> Seq<IndexerType> {
        if self.indexer_types@.len() > 0 {
            self.indexer_types@
        } else {
            Seq::new(self.num_hidden_layers as nat, |i: int| IndexerType::Full)
        }
    }

    /// Resolves the attention schedule. Without explicit layer types, a sparse
    /// layer stands on every fourth index (`idx % 4 == 3`).
    pub fn effective_layer_types(&self) -> (r: Vec<LayerType>)
        ensures
            r@ == self.layer_schedule(),
    {
        let mut out: Vec<LayerType> = Vec::new();
        if self.layer_types.len() > 0 {
            let mut i: usize = 0;
            while i < self.layer_types.len()
                invariant
                    i <= self.layer_types@.len(),
                    out@ == self.layer_types@.take(i as int),
                decreases self.layer_types@.len() - i,
            {
                out.push(self.layer_types[i]);
                i = i + 1;
            }
            proof {
                assert(out@ =~= self.layer_types@);
            }
            return out;
        }
        let mut i: usize = 0;
        while i < self.num_hidden_layers
            invariant
                i <= self.num_hidden_layers,
                out@.len() == i,
                forall|a: int| 0 <= a < i ==> #[trigger] out@[a] == default_layer_type(a),
            decreases self.num_hidden_layers - i,
        {
            if i % 4 == 3 {
                out.push(LayerType::DeepseekSparseAttention);
            } else {
                out.push(LayerType::LinearAttention);
            }
            i = i + 1;
        }
        out
    }

    /// Resolves the feed-forward schedule. Without explicit types, the first
    /// `first_k_dense_replace` layers are dense and the rest sparse.
    pub fn effective_mlp_layer_types(&self) -> (r: Vec<MlpLayerType>)
        ensures
            r@ == self.mlp_schedule(),
    {
        let mut out: Vec<MlpLayerType> = Vec::new();
        if self.mlp_layer_types.len() > 0 {
            let mut i: usize = 0;
            while i < self.mlp_layer_types.len()
                invariant
                    i <= self.mlp_layer_types@.len(),
                    out@ == self.mlp_layer_types@.take(i as int),
                decreases self.mlp_layer_types@.len() - i,
            {
                out.push(self.mlp_layer_types[i]);
                i = i + 1;
            }
            proof {
                assert(out@ =~= self.mlp_layer_types@);
            }
            return out;
        }
        let mut i: usize = 0;
        while i < self.num_hidden_layers
            invariant
                i <= self.num_hidden_layers,
                out@.len() == i,
                forall|a: int|
                    0 <= a < i ==> #[trigger] out@[a] == (if a < self.first_k_dense_replace {
                        MlpLayerType::Dense
                    } else {
                        MlpLayerType::Sparse
                    }),
            decreases self.num_hidden_layers - i,
        {
            if i < self.first_k_dense_replace {
                out.push(MlpLayerType::Dense);
            } else {
                out.push(MlpLayerType::Sparse);
            }
            i = i + 1;
        }
        out
    }

    /// Resolves the indexer schedule. Without explicit types, every sparse layer
    /// runs its indexer.
    pub fn effective_indexer_types(&self) -> (r: Vec<IndexerType>)
        ensures
            r@ == self.indexer_schedule(),
    {
        let mut out: Vec<IndexerType> = Vec::new();
        if self.indexer_types.len() > 0 {
            let mut i: usize = 0;
            while i < self.indexer_types.len()
                invariant
                    i <= self.indexer_types@.len(),
                    out@ == self.indexer_types@.take(i as int),
                decreases self.indexer_types@.len() - i,
            {
                out.push(self.indexer_types[i]);
                i = i + 1;
            }
            proof {
                assert(out@ =~= self.indexer_types@);
            }
            return out;
        }
        let mut i: usize = 0;
        while i < self.num_hidden_layers
            invariant
                i <= self.num_hidden_layers,
                out@.len() == i,
                forall|a: int| 0 <= a < i ==> #[trigger] out@[a] == IndexerType::Full,
            decreases self.num_hidden_layers - i,
        {
            out.push(IndexerType::Full);
            i = i + 1;
        }
        out
    }

    /// Indices of the sparse-attention layers.
    pub fn dsa_layer_indices(&self) -> (r: Vec<usize>)
        ensures
            r@ == indices_where(
                self.layer_schedule().map_values(
                    |t: LayerType| t == LayerType::DeepseekSparseAttention,
                ),
                self.layer_schedule().len(),
            ),
    {
        let types: Vec<LayerType> = self.effective_layer_types();
        let ghost flags = types@.map_values(|t: LayerType| t == LayerType::DeepseekSparseAttention);
        let mut out: Vec<usize> = Vec::new();
        let mut i: usize = 0;
        while i < types.len()
            invariant
                i <= types@.len(),
                flags == types@.map_values(
                    |t: LayerType| t == LayerType::DeepseekSparseAttention,
                ),
                out@ == indices_where(flags, i as nat),
            decreases types@.len() - i,
        {
            if types[i] == LayerType::DeepseekSparseAttention {
                out.push(i);
            }
            i = i + 1;
        }
        out
    }

    /// Indices of the linear-attention layers.
    pub fn kda_layer_indices(&self) -> (r: Vec<usize>)
        ensures
            r@ == indices_where(
                self.layer_schedule().map_values(|t: LayerType| t == LayerType::LinearAttention),
                self.layer_schedule().len(),
            ),
    {
        let types: Vec<LayerType> = self.effective_layer_types();
        let ghost flags = types@.map_values(|t: LayerType| t == LayerType::LinearAttention);
        let mut out: Vec<usize> = Vec::new();
        let mut i: usize = 0;
        while i < types.len()
            invariant
                i <= types@.len(),
                flags == types@.map_values(|t: LayerType| t == LayerType::LinearAttention),
                out@ == indices_where(flags, i as nat),
            decreases types@.len() - i,
        {
            if types[i] == LayerType::LinearAttention {
                out.push(i);
            }
            i = i + 1;
        }
        out
    }

    /// Indices of the sparse (routed MoE) feed-forward layers.
    pub fn sparse_mlp_layer_indices(&self) -> (r: Vec<usize>)
        ensures
            r@ == indices_where(
                self.mlp_schedule().map_values(|t: MlpLayerType| t == MlpLayerType::Sparse),
                self.mlp_schedule().len(),
            ),
    {
        let types: Vec<MlpLayerType> = self.effective_mlp_layer_types();
        let ghost flags = types@.map_values(|t: MlpLayerType| t == MlpLayerType::Sparse);
        let mut out: Vec<usize> = Vec::new();
        let mut i: usize = 0;
        while i < types.len()
            invariant
                i <= types@.len(),
                flags == types@.map_values(|t: MlpLayerType| t == MlpLayerType::Sparse),
                out@ == indices_where(flags, i as nat),
            decreases types@.len() - i,
        {
            if types[i] == MlpLayerType::Sparse {
                out.push(i);
            }
            i = i + 1;
        }
        out
    }

    /// Number of linear-attention heads; 64 where the configuration says zero.
    pub open spec fn linear_heads(&self) -> usize {
        if self.linear_attn_config.num_heads != 0 {
            self.linear_attn_config.num_heads
        } else {
            64
        }
    }

    /// Linear-attention head width; 128 where the configuration says zero.
    pub open spec fn linear_width(&self) -> usize {
        if self.linear_attn_config.head_dim != 0 {
            self.linear_attn_config.head_dim
        } else {
            128
        }
    }

    /// Width of the short convolution; 4 where the configuration says zero.
    pub open spec fn linear_kernel(&self) -> usize {
        if self.linear_attn_config.short_conv_kernel_size != 0 {
            self.linear_attn_config.short_conv_kernel_size
        } else {
            4
        }
    }

    /// Floor of the forget gate: the linear-attention setting, else the outer one.
    pub open spec fn linear_floor(&self) -> Option<F64> {
        match self.linear_attn_config.gate_lower_bound {
            Some(b) => Some(b),
            None => self.linear_lower_bound,
        }
    }

    /// Effective number of linear-attention heads.
    pub fn linear_num_heads(&self) -> (r: usize)
        ensures
            r == self.linear_heads(),
    {
        if self.linear_attn_config.num_heads != 0 {
            self.linear_attn_config.num_heads
        } else {
            64
        }
    }

    /// Effective linear-attention head width.
    pub fn linear_head_dim(&self) -> (r: usize)
        ensures
            r == self.linear_width(),
    {
        if self.linear_attn_config.head_dim != 0 {
            self.linear_attn_config.head_dim
        } else {
            128
        }
    }

    /// Effective width of the short convolution.
    pub fn linear_conv_kernel_dim(&self) -> (r: usize)
        ensures
            r == self.linear_kernel(),
    {
        if self.linear_attn_config.short_conv_kernel_size != 0 {
            self.linear_attn_config.short_conv_kernel_size
        } else {
            4
        }
    }

    /// Effective floor of the forget gate.
    pub fn linear_lower_bound(&self) -> (r: Option<F64>)
        ensures
            r == self.linear_floor(),
    {
        match self.linear_attn_config.gate_lower_bound {
            Some(b) => Some(b),
            None => self.linear_lower_bound,
        }
    }
}

/// The attention schedule without a configured one: in every run of four layers, counted
/// from the first, the last is sparse and the others are linear.
pub proof fn law_default_attention_schedule(cfg: &Glm5NextTextConfig, run: int, t: int)
    requires
        cfg.layer_types@.len() == 0,
        0 <= run,
        0 <= t < 4,
        4 * run + t < cfg.num_hidden_layers,
    ensures
        cfg.layer_schedule().len() == cfg.num_hidden_layers,
        cfg.layer_schedule()[4 * run + t] == LayerType::DeepseekSparseAttention <==> t == 3,
        cfg.layer_schedule()[4 * run + t] == LayerType::LinearAttention <==> t < 3,
{
    assert((4 * run + t) % 4 == t);
}

/// The feed-forward schedule without a configured one: the first `first_k_dense_replace`
/// layers are dense, all behind them sparse.
pub proof fn law_default_mlp_schedule(cfg: &Glm5NextTextConfig, i: int)
    requires
        cfg.mlp_layer_types@.len() == 0,
        0 <= i < cfg.num_hidden_layers,
    ensures
        cfg.mlp_schedule().len() == cfg.num_hidden_layers,
        cfg.mlp_schedule()[i] == MlpLayerType::Dense <==> i < cfg.first_k_dense_replace,
        cfg.mlp_schedule()[i] == MlpLayerType::Sparse <==> i >= cfg.first_k_dense_replace,
{
}

/// The indexer schedule without a configured one: every layer is full.
pub proof fn law_default_indexer_schedule(cfg: &Glm5NextTextConfig, i: int)
    requires
        cfg.indexer_types@.len() == 0,
        0 <= i < cfg.num_hidden_layers,
    ensures
        cfg.indexer_schedule().len() == cfg.num_hidden_layers,
        cfg.indexer_schedule()[i] == IndexerType::Full,
{
}

/// A configured schedule is taken as it is.
pub proof fn law_configured_schedules_hold(cfg: &Glm5NextTextConfig)
    ensures
        cfg.layer_types@.len() > 0 ==> cfg.layer_schedule() == cfg.layer_types@,
        cfg.mlp_layer_types@.len() > 0 ==> cfg.mlp_schedule() == cfg.mlp_layer_types@,
        cfg.indexer_types@.len() > 0 ==> cfg.indexer_schedule() == cfg.indexer_types@,
{
}

/// The listed sparse-attention, linear-attention and sparse feed-forward layers are those
/// that the schedule says, and no others.
pub proof fn law_listed_layers(cfg: &Glm5NextTextConfig, i: int)
    requires
        cfg.layer_schedule().len() <= usize::MAX,
        cfg.mlp_schedule().len() <= usize::MAX,
        0 <= i,
    ensures
        ({
            let types = cfg.layer_schedule();
            let sparse = indices_where(
                types.map_values(|t: LayerType| t == LayerType::DeepseekSparseAttention),
                types.len(),
            );
            let linear = indices_where(
                types.map_values(|t: LayerType| t == LayerType::LinearAttention),
                types.len(),
            );
            &&& i < types.len() ==> (sparse.contains(i as usize) <==> types[i]
                == LayerType::DeepseekSparseAttention)
            &&& i < types.len() ==> (linear.contains(i as usize) <==> types[i]
                == LayerType::LinearAttention)
            &&& types.len() <= i <= usize::MAX ==> !sparse.contains(i as usize)
                && !linear.contains(i as usize)
        }),
        ({
            let types = cfg.mlp_schedule();
            let sparse = indices_where(
                types.map_values(|t: MlpLayerType| t == MlpLayerType::Sparse),
                types.len(),
            );
            &&& i < types.len() ==> (sparse.contains(i as usize) <==> types[i]
                == MlpLayerType::Sparse)
            &&& types.len() <= i <= usize::MAX ==> !sparse.contains(i as usize)
        }),
{
    let types = cfg.layer_schedule();
    lemma_listed(types.map_values(|t: LayerType| t == LayerType::DeepseekSparseAttention), i);
    lemma_listed(types.map_values(|t: LayerType| t == LayerType::LinearAttention), i);
    let mlps = cfg.mlp_schedule();
    lemma_listed(mlps.map_values(|t: MlpLayerType| t == MlpLayerType::Sparse), i);
}

proof fn lemma_listed(flags: Seq<bool>, i: int)
    requires
        flags.len() <= usize::MAX,
        0 <= i,
    ensures
        i < flags.len() ==> (indices_where(flags, flags.len()).contains(i as usize) <==> flags[i]),
        flags.len() <= i <= usize::MAX ==> !indices_where(flags, flags.len()).contains(i as usize),
{
    let list = indices_where(flags, flags.len());
    law_indices_where(flags, flags.len());
    if i <= usize::MAX && list.contains(i as usize) {
        let a = choose|a: int| 0 <= a < list.len() && list[a] == i as usize;
        assert(list[a] < flags.len() && flags[list[a] as int]);
    }
}

/// A linear-attention size of zero stands for the default: 64 heads of width 128 that
/// convolve 4 columns. A floor that is set there goes before the outer one.
pub proof fn law_linear_attention_defaults(cfg: &Glm5NextTextConfig)
    ensures
        cfg.linear_attn_config.num_heads > 0 ==> cfg.linear_heads()
            == cfg.linear_attn_config.num_heads,
        cfg.linear_attn_config.num_heads == 0 ==> cfg.linear_heads() == 64,
        cfg.linear_attn_config.head_dim > 0 ==> cfg.linear_width()
            == cfg.linear_attn_config.head_dim,
        cfg.linear_attn_config.head_dim == 0 ==> cfg.linear_width() == 128,
        cfg.linear_attn_config.short_conv_kernel_size > 0 ==> cfg.linear_kernel()
            == cfg.linear_attn_config.short_conv_kernel_size,
        cfg.linear_attn_config.short_conv_kernel_size == 0 ==> cfg.linear_kernel() == 4,
        cfg.linear_attn_config.gate_lower_bound is Some ==> cfg.linear_floor()
            == cfg.linear_attn_config.gate_lower_bound,
        cfg.linear_attn_config.gate_lower_bound is None ==> cfg.linear_floor()
            == cfg.linear_lower_bound,
{
}

} // verus!
