//! The GLM-5.3-Flash text model: layer dispatch and the passing on of selections.

use vstd::prelude::*;

use super::attention::{
    are_masks, attention_sizes_fit, tokens, Attended, Glm5NextTextAttention, LinearShape,
    PoolScores, Selection,
};
use super::indexer::{appended, mask_fits, PooledStates};
use super::kda::{conv_plan, KdaLinearAttention, KdaPlan};
use super::router::{Glm5NextMLP, Glm5NextTextMoE};
use super::{Glm5NextTextConfig, LayerType, MlpLayerType};
use crate::error::LmError;
use crate::float::F32;

verus! {

/// Attention of a decoder layer.
pub enum Glm5NextSelfAttn {
    Linear(KdaLinearAttention),
    Sparse(Glm5NextTextAttention),
}

/// Feed-forward part of a decoder layer.
pub enum Glm5NextMlp {
    Dense(Glm5NextMLP),
    MoE(Glm5NextTextMoE),
}

/// One decoder layer.
pub struct Glm5NextDecoderLayer {
    pub self_attn: Glm5NextSelfAttn,
    pub mlp: Glm5NextMlp,
}

/// What a layer does with new tokens before it attends.
pub enum LayerStart {
    /// A linear layer convolves and recurs.
    Linear(KdaPlan),
    /// A sparse layer scores these pools.
    Full(PooledStates),
    /// A sparse layer reuses the selection of the previous full layer.
    Shared,
}

/// The layer uses sparse attention; past the schedule layers are linear.
pub open spec fn sparse_attention_at(cfg: &Glm5NextTextConfig, layer_idx: int) -> bool {
    let types = cfg.layer_schedule();
    layer_idx < types.len() && types[layer_idx] == LayerType::DeepseekSparseAttention
}

/// The layer uses a dense MLP; past the schedule layers are sparse.
pub open spec fn dense_mlp_at(cfg: &Glm5NextTextConfig, layer_idx: int) -> bool {
    let types = cfg.mlp_schedule();
    layer_idx < types.len() && types[layer_idx] == MlpLayerType::Dense
}

/// Every product of sizes that a layer needs fits in a word.
pub open spec fn layer_sizes_fit(cfg: &Glm5NextTextConfig) -> bool {
    &&& attention_sizes_fit(cfg)
    &&& cfg.linear_width() * cfg.linear_heads() * 3 <= usize::MAX
    &&& cfg.moe_intermediate_size * cfg.n_shared_experts <= usize::MAX
}

impl Glm5NextDecoderLayer {
    /// The parts that the schedules and the configuration give layer `layer_idx`.
    pub open spec fn built(&self, cfg: &Glm5NextTextConfig, layer_idx: int) -> bool {
        &&& match self.self_attn {
            Glm5NextSelfAttn::Sparse(a) => sparse_attention_at(cfg, layer_idx) && a.built(
                cfg,
                layer_idx,
            ),
            Glm5NextSelfAttn::Linear(a) => !sparse_attention_at(cfg, layer_idx) && a.built(
                cfg,
                layer_idx,
            ),
        }
        &&& match self.mlp {
            Glm5NextMlp::Dense(m) => {
                &&& dense_mlp_at(cfg, layer_idx)
                &&& m.hidden_size == cfg.hidden_size
                &&& m.intermediate_size == cfg.intermediate_size
                &&& m.limit == cfg.swiglu_limit
            },
            Glm5NextMlp::MoE(m) => !dense_mlp_at(cfg, layer_idx) && m.built(cfg),
        }
    }

    /// Builds layer `layer_idx` as the schedules say.
    pub fn new(cfg: &Glm5NextTextConfig, layer_idx: usize) -> (r: Self)
        requires
            layer_sizes_fit(cfg),
            layer_idx < usize::MAX,
        ensures
            r.built(cfg, layer_idx as int),
            r.wf(),
            r.is_fresh(),
    {
        let attn_types: Vec<LayerType> = cfg.effective_layer_types();
        let sparse: bool = layer_idx < attn_types.len() && attn_types[layer_idx]
            == LayerType::DeepseekSparseAttention;
        let self_attn: Glm5NextSelfAttn = if sparse {
            Glm5NextSelfAttn::Sparse(Glm5NextTextAttention::new(cfg, layer_idx))
        } else {
            Glm5NextSelfAttn::Linear(KdaLinearAttention::new(cfg, layer_idx))
        };
        let mlp_types: Vec<MlpLayerType> = cfg.effective_mlp_layer_types();
        let dense: bool = layer_idx < mlp_types.len() && mlp_types[layer_idx]
            == MlpLayerType::Dense;
        let mlp: Glm5NextMlp = if dense {
            Glm5NextMlp::Dense(
                Glm5NextMLP::new(cfg.hidden_size, cfg.intermediate_size, cfg.swiglu_limit),
            )
        } else {
            Glm5NextMlp::MoE(Glm5NextTextMoE::new(cfg))
        };
        Glm5NextDecoderLayer { self_attn, mlp }
    }

    pub open spec fn wf(&self) -> bool {
        match self.self_attn {
            Glm5NextSelfAttn::Linear(a) => a.wf(),
            Glm5NextSelfAttn::Sparse(a) => a.wf(),
        }
    }

    /// The layer's caches are empty.
    pub open spec fn is_fresh(&self) -> bool {
        match self.self_attn {
            Glm5NextSelfAttn::Linear(a) => !a.cached,
            Glm5NextSelfAttn::Sparse(a) => a.is_fresh(),
        }
    }

    /// Nothing but the caches changes.
    pub open spec fn same_settings(&self, other: &Self) -> bool {
        &&& self.mlp == other.mlp
        &&& match (self.self_attn, other.self_attn) {
            (Glm5NextSelfAttn::Linear(a), Glm5NextSelfAttn::Linear(b)) => a.same_settings(&b),
            (Glm5NextSelfAttn::Sparse(a), Glm5NextSelfAttn::Sparse(b)) => a.same_settings(&b),
            _ => false,
        }
    }

    /// The layer runs an indexer of its own.
    pub open spec fn is_full(&self) -> bool {
        self.self_attn matches Glm5NextSelfAttn::Sparse(a) && a.indexer is Some
    }

    /// Adds `seq` tokens of `batch` sequences to the layer's caches.
    pub fn push_tokens(
        &mut self,
        batch: usize,
        seq: usize,
        mask: Option<&Vec<Vec<F32>>>,
    ) -> (r: Result<LayerStart, LmError>)
        requires
            old(self).wf(),
            match old(self).self_attn {
                Glm5NextSelfAttn::Linear(a) => {
                    &&& seq > 0
                    &&& seq + a.conv_kernel <= usize::MAX
                },
                Glm5NextSelfAttn::Sparse(a) => {
                    &&& a.kv_len() + seq <= usize::MAX
                    &&& a.indexer matches Some(i) ==> 2 * (a.kv_len() + seq) + i.index_kpool
                        <= isize::MAX
                },
            },
        ensures
            final(self).wf(),
            final(self).same_settings(old(self)),
            match (old(self).self_attn, final(self).self_attn) {
                (Glm5NextSelfAttn::Linear(a), Glm5NextSelfAttn::Linear(z)) => {
                    &&& z.cached
                    &&& r matches Ok(LayerStart::Linear(p)) && p.conv == conv_plan(
                        a.conv_kernel as int,
                        a.cached,
                        seq as int,
                    ) && p.resume == a.cached && p.q_start == 0 && p.k_start == a.qkv_dim
                        && p.v_start == 2 * a.qkv_dim
                },
                (Glm5NextSelfAttn::Sparse(a), Glm5NextSelfAttn::Sparse(z)) => {
                    if a.kv_cache is Some && (a.kv_cache->Some_0).0 != batch {
                        &&& r == Err::<LayerStart, LmError>(
                            LmError::BatchSize { have: (a.kv_cache->Some_0).0, got: batch },
                        )
                        &&& z.same_caches(&a)
                    } else if a.indexer is Some && !mask_fits(mask, batch as int, seq as int) {
                        &&& r == Err::<LayerStart, LmError>(LmError::MaskShape { batch, seq })
                        &&& z.same_caches(&a)
                    } else {
                        &&& z.kv_cache == Some((batch, (a.kv_len() + seq) as usize))
                        &&& match a.indexer {
                            Some(i) => {
                                &&& z.indexer->Some_0.keys() == Some(
                                    appended(i.keys(), batch as nat, seq as nat, mask),
                                )
                                &&& r matches Ok(LayerStart::Full(p))
                                    && z.indexer->Some_0.pools_match(&p)
                            },
                            None => r matches Ok(LayerStart::Shared),
                        }
                    }
                },
                _ => false,
            },
    {
        match &mut self.self_attn {
            Glm5NextSelfAttn::Linear(a) => Ok(LayerStart::Linear(a.forward(seq))),
            Glm5NextSelfAttn::Sparse(a) => {
                match a.push_tokens(batch, seq, mask) {
                    Ok(Some(p)) => Ok(LayerStart::Full(p)),
                    Ok(None) => Ok(LayerStart::Shared),
                    Err(e) => Err(e),
                }
            },
        }
    }

    /// What the last `seq` queries attend to, in a sparse layer.
    pub fn forward(
        &self,
        seq: usize,
        mask: Option<&Vec<Vec<F32>>>,
        ranked: Option<&PoolScores>,
        prev_topk: Option<&Selection>,
    ) -> (r: Result<Option<Attended>, LmError>)
        requires
            self.wf(),
            self.self_attn matches Glm5NextSelfAttn::Sparse(a) ==> a.kv_len() <= i64::MAX,
            self.self_attn matches Glm5NextSelfAttn::Sparse(a) ==> a.indexer is Some ==> ranked
                is Some && a.can_select(seq as int, mask, ranked->Some_0),
        ensures
            match self.self_attn {
                Glm5NextSelfAttn::Linear(_) => r matches Ok(None),
                Glm5NextSelfAttn::Sparse(a) => if a.indexer is None && prev_topk is None {
                    r == Err::<Option<Attended>, LmError>(LmError::NoSharedTopk)
                } else {
                    &&& r matches Ok(Some(t)) && {
                        &&& a.indexer is Some ==> a.selects(
                            seq as int,
                            mask,
                            ranked->Some_0,
                            tokens(&t.topk),
                        )
                        &&& a.indexer is None ==> tokens(&t.topk) == tokens(prev_topk->Some_0)
                        &&& are_masks(tokens(&t.topk), a.kv_len(), t.mask@)
                        &&& t.hand_on == a.next_skip_topk
                    }
                },
            },
    {
        match &self.self_attn {
            Glm5NextSelfAttn::Linear(_) => Ok(None),
            Glm5NextSelfAttn::Sparse(a) => {
                match a.forward(seq, mask, ranked, prev_topk) {
                    Ok(t) => Ok(Some(t)),
                    Err(e) => Err(e),
                }
            },
        }
    }

    /// Empties the layer's caches.
    pub fn clear_kv_cache(&mut self)
        requires
            old(self).wf(),
        ensures
            final(self).wf(),
            final(self).is_fresh(),
            final(self).same_settings(old(self)),
    {
        match &mut self.self_attn {
            Glm5NextSelfAttn::Linear(a) => a.clear_cache(),
            Glm5NextSelfAttn::Sparse(a) => a.clear_kv_cache(),
        }
    }

    /// Whether the layer uses sparse attention.
    pub fn is_sparse_attention(&self) -> (r: bool)
        ensures
            r == (self.self_attn is Sparse),
    {
        matches!(self.self_attn, Glm5NextSelfAttn::Sparse(_))
    }

    /// Whether the layer uses the routed MoE.
    pub fn is_sparse_mlp(&self) -> (r: bool)
        ensures
            r == (self.mlp is MoE),
    {
        matches!(self.mlp, Glm5NextMlp::MoE(_))
    }
}

/// The stack of decoder layers.
pub struct Glm5NextTextModel {
    pub hidden_size: usize,
    pub hc_mult: usize,
    pub vocab_size: usize,
    pub layers: Vec<Glm5NextDecoderLayer>,
}

impl Glm5NextTextModel {
    /// Nothing but the caches changes.
    pub open spec fn same_settings(&self, other: &Self) -> bool {
        &&& self.hidden_size == other.hidden_size
        &&& self.hc_mult == other.hc_mult
        &&& self.vocab_size == other.vocab_size
        &&& self.layers@.len() == other.layers@.len()
        &&& forall|i: int|
            0 <= i < self.layers@.len() ==> (#[trigger] self.layers@[i]).same_settings(
                &other.layers@[i],
            )
    }

    /// Every layer's caches are empty.
    pub open spec fn is_fresh(&self) -> bool {
        forall|i: int| 0 <= i < self.layers@.len() ==> (#[trigger] self.layers@[i]).is_fresh()
    }

    /// Builds every layer as the schedules say.
    pub fn new(cfg: &Glm5NextTextConfig) -> (r: Self)
        requires
            layer_sizes_fit(cfg),
        ensures
            r.hidden_size == cfg.hidden_size,
            r.hc_mult == cfg.hc_mult,
            r.vocab_size == cfg.vocab_size,
            r.layers@.len() == cfg.num_hidden_layers,
            forall|i: int|
                0 <= i < r.layers@.len() ==> (#[trigger] r.layers@[i]).built(cfg, i)
                    && r.layers@[i].wf() && r.layers@[i].is_fresh(),
    {
        let mut layers: Vec<Glm5NextDecoderLayer> = Vec::new();
        let mut i: usize = 0;
        while i < cfg.num_hidden_layers
            invariant
                i <= cfg.num_hidden_layers,
                layer_sizes_fit(cfg),
                layers@.len() == i,
                forall|a: int|
                    0 <= a < i ==> (#[trigger] layers@[a]).built(cfg, a) && layers@[a].wf()
                        && layers@[a].is_fresh(),
            decreases cfg.num_hidden_layers - i,
        {
            layers.push(Glm5NextDecoderLayer::new(cfg, i));
            i = i + 1;
        }
        Glm5NextTextModel {
            hidden_size: cfg.hidden_size,
            hc_mult: cfg.hc_mult,
            vocab_size: cfg.vocab_size,
            layers,
        }
    }

    /// Empties every layer's caches, so that the next call is a fresh prefill.
    pub fn clear_kv_cache(&mut self)
        requires
            forall|i: int| 0 <= i < old(self).layers@.len() ==> (#[trigger] old(self).layers@[i]).wf(),
        ensures
            final(self).same_settings(old(self)),
            final(self).is_fresh(),
            forall|i: int|
                0 <= i < final(self).layers@.len() ==> (#[trigger] final(self).layers@[i]).wf(),
    {
        let n: usize = self.layers.len();
        let mut i: usize = 0;
        while i < n
            invariant
                i <= n,
                n == old(self).layers@.len(),
                self.layers@.len() == n,
                self.hidden_size == old(self).hidden_size,
                self.hc_mult == old(self).hc_mult,
                self.vocab_size == old(self).vocab_size,
                forall|a: int| 0 <= a < n ==> (#[trigger] old(self).layers@[a]).wf(),
                forall|a: int| i <= a < n ==> #[trigger] self.layers@[a] == old(self).layers@[a],
                forall|a: int|
                    0 <= a < i ==> (#[trigger] self.layers@[a]).is_fresh() && self.layers@[a].wf()
                        && self.layers@[a].same_settings(&old(self).layers@[a]),
            decreases n - i,
        {
            self.layers[i].clear_kv_cache();
            i = i + 1;
        }
    }
}

/// The selection that the next layer may share: a sparse layer's, or what came to a
/// linear layer.
pub fn carry_topk<'a>(attended: Option<&'a Attended>, prev_topk: Option<&'a Selection>) -> (r:
    Option<&'a Selection>)
    ensures
        r == (match attended {
            Some(a) => Some(&a.topk),
            None => prev_topk,
        }),
{
    match attended {
        Some(a) => Some(&a.topk),
        None => prev_topk,
    }
}

/// Layer `i` is full and no layer between it and layer `upto` is.
pub open spec fn last_full(layers: Seq<Glm5NextDecoderLayer>, i: int, upto: int) -> bool {
    &&& 0 <= i < upto <= layers.len()
    &&& layers[i].is_full()
    &&& forall|j: int| i < j < upto ==> !(#[trigger] layers[j]).is_full()
}

/// A pass over the first layers: what each attends to, and what it is handed. Full
/// layers attend to their own selection `own[i]`, shared ones to what they are handed.
pub open spec fn is_pass<S>(
    layers: Seq<Glm5NextDecoderLayer>,
    own: Seq<S>,
    attended: Seq<Option<S>>,
    handed: Seq<Option<S>>,
) -> bool {
    &&& attended.len() == layers.len()
    &&& own.len() == layers.len()
    &&& handed.len() == layers.len() + 1
    &&& handed[0] is None
    &&& forall|i: int|
        0 <= i < layers.len() ==> #[trigger] attended[i] == (if layers[i].is_full() {
            Some(own[i])
        } else if layers[i].self_attn is Sparse {
            handed[i]
        } else {
            None
        })
    &&& forall|i: int|
        0 <= i < layers.len() ==> #[trigger] handed[i + 1] == (if attended[i] is Some {
            attended[i]
        } else {
            handed[i]
        })
}

/// A shared layer reuses the selection of the last full layer before it, whatever
/// layers lie between, and is handed none only where no full layer comes before it.
pub proof fn law_shared_layer_reuses_last_full<S>(
    layers: Seq<Glm5NextDecoderLayer>,
    own: Seq<S>,
    attended: Seq<Option<S>>,
    handed: Seq<Option<S>>,
    upto: int,
)
    requires
        is_pass(layers, own, attended, handed),
        0 <= upto <= layers.len(),
    ensures
        forall|i: int| #[trigger] last_full(layers, i, upto) ==> handed[upto] == Some(own[i]),
        handed[upto] is None <==> forall|i: int| 0 <= i < upto ==> !(#[trigger] layers[i]).is_full(),
    decreases upto,
{
    if upto > 0 {
        let n = upto - 1;
        law_shared_layer_reuses_last_full(layers, own, attended, handed, n);
        assert(handed[n + 1] == (if attended[n] is Some {
            attended[n]
        } else {
            handed[n]
        }));
        assert forall|i: int| #[trigger] last_full(layers, i, upto) implies handed[upto] == Some(
            own[i],
        ) by {
            if i < n {
                assert(last_full(layers, i, n));
                assert(!layers[n].is_full());
            }
        }
        if handed[upto] is None {
            assert forall|i: int| 0 <= i < upto implies !(#[trigger] layers[i]).is_full() by {}
        } else if layers[n].is_full() {
            assert(0 <= n < upto);
        } else {
            let i = choose|i: int| 0 <= i < n && (#[trigger] layers[i]).is_full();
            assert(0 <= i < upto && layers[i].is_full());
        }
    }
}

/// Clearing makes a layer new: two layers of the same settings with empty caches are
/// the same layer.
pub proof fn law_fresh_layers_are_the_same(a: &Glm5NextDecoderLayer, b: &Glm5NextDecoderLayer)
    requires
        a.same_settings(b),
        a.is_fresh(),
        b.is_fresh(),
    ensures
        *a == *b,
{
}

/// Clearing makes a model new. Calls change nothing but the caches, so `later`, a model
/// that was run and then cleared, has the settings of the model it once was; its layers
/// are those of the fresh one, and whatever is computed from them is what was computed
/// first.
pub proof fn law_cleared_model_is_fresh_again<L>(
    first: &Glm5NextTextModel,
    later: &Glm5NextTextModel,
    logits: spec_fn(Seq<Glm5NextDecoderLayer>) -> L,
)
    requires
        later.same_settings(first),
        first.is_fresh(),
        later.is_fresh(),
    ensures
        later.layers@ == first.layers@,
        later.hidden_size == first.hidden_size,
        later.hc_mult == first.hc_mult,
        later.vocab_size == first.vocab_size,
        logits(later.layers@) == logits(first.layers@),
{
    assert forall|i: int| 0 <= i < first.layers@.len() implies #[trigger] later.layers@[i]
        == first.layers@[i] by {
        law_fresh_layers_are_the_same(&later.layers@[i], &first.layers@[i]);
    }
    assert(later.layers@ =~= first.layers@);
}

/// The text model with its output projection from `hidden_size` to `vocab_size`.
pub struct Glm5NextForCausalLM {
    pub model: Glm5NextTextModel,
    pub lm_head: LinearShape,
}

impl Glm5NextForCausalLM {
    /// Builds the model and its output projection.
    pub fn new(cfg: &Glm5NextTextConfig) -> (r: Self)
        requires
            layer_sizes_fit(cfg),
        ensures
            r.lm_head == (LinearShape { inp: cfg.hidden_size, out: cfg.vocab_size, bias: false }),
            r.model.hidden_size == cfg.hidden_size,
            r.model.hc_mult == cfg.hc_mult,
            r.model.vocab_size == cfg.vocab_size,
            r.model.layers@.len() == cfg.num_hidden_layers,
            forall|i: int|
                0 <= i < r.model.layers@.len() ==> (#[trigger] r.model.layers@[i]).built(cfg, i)
                    && r.model.layers@[i].wf() && r.model.layers@[i].is_fresh(),
    {
        Glm5NextForCausalLM {
            model: Glm5NextTextModel::new(cfg),
            lm_head: LinearShape { inp: cfg.hidden_size, out: cfg.vocab_size, bias: false },
        }
    }

    /// The shape of the logits for `batch` sequences of `seq` tokens.
    pub fn logits_shape(&self, batch: usize, seq: usize) -> (r: (usize, usize, usize))
        ensures
            r == (batch, seq, self.lm_head.out),
    {
        (batch, seq, self.lm_head.out)
    }

    /// Empties every cache.
    pub fn clear_kv_cache(&mut self)
        requires
            forall|i: int|
                0 <= i < old(self).model.layers@.len() ==> (#[trigger] old(self).model.layers@[i]).wf(),
        ensures
            final(self).lm_head == old(self).lm_head,
            final(self).model.same_settings(&old(self).model),
            final(self).model.is_fresh(),
            forall|i: int|
                0 <= i < final(self).model.layers@.len() ==> (#[trigger] final(self).model.layers@[i]).wf(),
    {
        self.model.clear_kv_cache();
    }
}

/// A built layer is what the schedules say: sparse attention exactly where the attention
/// schedule names it, a dense MLP exactly where the feed-forward schedule does; past a
/// schedule linear attention and routed experts.
pub proof fn law_layers_follow_the_schedules(
    layer: &Glm5NextDecoderLayer,
    cfg: &Glm5NextTextConfig,
    i: int,
)
    requires
        layer.built(cfg, i),
        0 <= i,
    ensures
        i < cfg.layer_schedule().len() ==> (layer.self_attn is Sparse <==> cfg.layer_schedule()[i]
            == LayerType::DeepseekSparseAttention),
        i < cfg.layer_schedule().len() ==> (layer.self_attn is Linear <==> cfg.layer_schedule()[i]
            == LayerType::LinearAttention),
        i >= cfg.layer_schedule().len() ==> layer.self_attn is Linear,
        i < cfg.mlp_schedule().len() ==> (layer.mlp is Dense <==> cfg.mlp_schedule()[i]
            == MlpLayerType::Dense),
        i < cfg.mlp_schedule().len() ==> (layer.mlp is MoE <==> cfg.mlp_schedule()[i]
            == MlpLayerType::Sparse),
        i >= cfg.mlp_schedule().len() ==> layer.mlp is MoE,
        layer.mlp matches Glm5NextMlp::Dense(m) ==> m.hidden_size == cfg.hidden_size
            && m.intermediate_size == cfg.intermediate_size && m.limit == cfg.swiglu_limit,
        layer.mlp matches Glm5NextMlp::MoE(m) ==> m.shared_experts.hidden_size == cfg.hidden_size
            && m.gate.hidden == cfg.hidden_size && m.gate.top_k == cfg.num_experts_per_tok,
{
}

} // verus!
