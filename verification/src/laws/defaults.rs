//! The values of settings that a checkpoint leaves out.

use vstd::prelude::*;

use crate::activation::Activation;
use crate::deepseek_v4::{self, ScoringFunc, TopkMethod};
use crate::float::{F32, F64};
use crate::glm5_next;

verus! {

/// Settings of a GLM-5.3 configuration: one group of experts, of which one is chosen; four
/// residual streams; pools of 16 keys of which 2048 are selected; the first three layers
/// dense.
pub proof fn law_glm_defaults()
    ensures
        forall|r: usize| #[trigger] call_ensures(glm5_next::default_num_key_value_heads, (), r) ==> r == 64,
        forall|r: usize| #[trigger] call_ensures(glm5_next::default_n_shared_experts, (), r) ==> r == 1,
        forall|r: F64| #[trigger] call_ensures(glm5_next::default_routed_scaling_factor, (), r) ==> r == (F64 { bits: 0x3FF0_0000_0000_0000 }),
        forall|r: usize| #[trigger] call_ensures(glm5_next::default_qk_rope_head_dim, (), r) ==> r == 0,
        forall|r: usize| #[trigger] call_ensures(glm5_next::default_n_group, (), r) ==> r == 1,
        forall|r: usize| #[trigger] call_ensures(glm5_next::default_topk_group, (), r) ==> r == 1,
        forall|r: bool| #[trigger] call_ensures(glm5_next::default_norm_topk_prob, (), r) ==> r,
        forall|r: Activation| #[trigger] call_ensures(glm5_next::default_hidden_act, (), r) ==> r == Activation::Silu,
        forall|r: F32| #[trigger] call_ensures(glm5_next::default_initializer_range, (), r) ==> r == (F32 { bits: 0x3CA3_D70A }),
        forall|r: F64| #[trigger] call_ensures(glm5_next::default_rms_norm_eps, (), r) ==> r == (F64 { bits: 0x3EE4_F8B5_88E3_68F1 }),
        forall|r: bool| #[trigger] call_ensures(glm5_next::default_use_cache, (), r) ==> r,
        forall|r: usize| #[trigger] call_ensures(glm5_next::default_pad_token_id, (), r) ==> r == 154820,
        forall|r: bool| #[trigger] call_ensures(glm5_next::default_tie_word_embeddings, (), r) ==> !r,
        forall|r: bool| #[trigger] call_ensures(glm5_next::default_attention_bias, (), r) ==> !r,
        forall|r: F64| #[trigger] call_ensures(glm5_next::default_attention_dropout, (), r) ==> r == (F64 { bits: 0x0000_0000_0000_0000 }),
        forall|r: usize| #[trigger] call_ensures(glm5_next::default_index_topk, (), r) ==> r == 2048,
        forall|r: usize| #[trigger] call_ensures(glm5_next::default_index_head_dim, (), r) ==> r == 128,
        forall|r: usize| #[trigger] call_ensures(glm5_next::default_index_n_heads, (), r) ==> r == 32,
        forall|r: usize| #[trigger] call_ensures(glm5_next::default_head_dim, (), r) ==> r == 0,
        forall|r: F64| #[trigger] call_ensures(glm5_next::default_swiglu_limit, (), r) ==> r == (F64 { bits: 0x4024_0000_0000_0000 }),
        forall|r: Option<F64>| #[trigger] call_ensures(glm5_next::default_linear_lower_bound, (), r) ==> r == Some(F64 { bits: 0xC014_0000_0000_0000 }),
        forall|r: usize| #[trigger] call_ensures(glm5_next::default_hc_mult, (), r) ==> r == 4,
        forall|r: F64| #[trigger] call_ensures(glm5_next::default_hc_eps, (), r) ==> r == (F64 { bits: 0x3EB0_C6F7_A0B5_ED8D }),
        forall|r: usize| #[trigger] call_ensures(glm5_next::default_hc_sinkhorn_iters, (), r) ==> r == 20,
        forall|r: bool| #[trigger] call_ensures(glm5_next::default_output_router_logits, (), r) ==> !r,
        forall|r: F64| #[trigger] call_ensures(glm5_next::default_router_aux_loss_coef, (), r) ==> r == (F64 { bits: 0x3F50_624D_D2F1_A9FC }),
        forall|r: usize| #[trigger] call_ensures(glm5_next::default_index_kpool, (), r) ==> r == 16,
        forall|r: bool| #[trigger] call_ensures(glm5_next::default_index_kpool_always_select_tail, (), r) ==> r,
        forall|r: usize| #[trigger] call_ensures(glm5_next::default_first_k_dense_replace, (), r) ==> r == 3,
        forall|r: bool| #[trigger] call_ensures(glm5_next::default_mhc, (), r) ==> r,
        forall|r: bool| #[trigger] call_ensures(glm5_next::default_mla_use_nope, (), r) ==> r,
        forall|r: bool| #[trigger] call_ensures(glm5_next::default_index_kpool_compress, (), r) ==> r,
        forall|r: bool| #[trigger] call_ensures(glm5_next::default_index_share_for_mtp_iteration, (), r) ==> !r,
        forall|r: bool| #[trigger] call_ensures(glm5_next::default_indexer_rope_interleave, (), r) ==> r,
{
}

/// Settings of a DeepSeek-V4 configuration.
pub proof fn law_deepseek_defaults()
    ensures
        forall|r: Activation| #[trigger] call_ensures(deepseek_v4::default_hidden_act, (), r) ==> r == Activation::Silu,
        forall|r: bool| #[trigger] call_ensures(deepseek_v4::default_tie_word_embeddings, (), r) ==> !r,
        forall|r: bool| #[trigger] call_ensures(deepseek_v4::default_norm_topk_prob, (), r) ==> !r,
        forall|r: F64| #[trigger] call_ensures(deepseek_v4::default_routed_scaling_factor, (), r) ==> r.bits == 0x3FF0_0000_0000_0000,
        forall|r: TopkMethod| #[trigger] call_ensures(deepseek_v4::default_topk_method, (), r) ==> r == TopkMethod::Greedy,
        forall|r: ScoringFunc| #[trigger] call_ensures(deepseek_v4::default_scoring_func, (), r) ==> r == ScoringFunc::Softmax,
{
}

} // verus!
