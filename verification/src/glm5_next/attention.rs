//! Sparse attention of the GLM-5.3-Flash text model: which tokens are attended to, and
//! the masks that say so.

use vstd::prelude::*;

use super::decode::picks;
use super::indexer::{
    appended, law_forward_is_causal, mask_fits, token_flag, Glm5NextTextIndexer, PooledStates,
};
use super::router::NEG_INF_BITS;
use super::select::visible;
use super::{Glm5NextTextConfig, IndexerType};
use crate::error::LmError;
use crate::float::F32;

verus! {

/// For every sequence and query, the positions it attends to; -1 fills a row.
pub type Selection = Vec<Vec<Vec<i64>>>;

/// A selection as a sequence.
pub open spec fn tokens(s: &Selection) -> Seq<Seq<Seq<i64>>> {
    Seq::new(
        s@.len(),
        |b: int| Seq::new(s@[b]@.len(), |q: int| s@[b]@[q]@),
    )
}

/// The pools of a layer's cached keys and their score for every sequence and query.
pub struct PoolScores {
    pub pooled: PooledStates,
    pub scores: Vec<Vec<Vec<F32>>>,
}

/// What a sparse layer attends to.
pub struct Attended {
    pub topk: Selection,
    /// Additive masks over the cached tokens.
    pub mask: Vec<Vec<Vec<F32>>>,
    /// Whether the next layer shares the selection.
    pub hand_on: bool,
}

/// The additive mask of one query: zero at the selected tokens, negative infinity
/// elsewhere.
pub open spec fn is_mask_row(row: Seq<i64>, kv_len: int, mask: Seq<F32>) -> bool {
    &&& mask.len() == kv_len
    &&& forall|j: int|
        0 <= j < kv_len ==> #[trigger] mask[j] == (F32 {
            bits: if picks(row, j) {
                0
            } else {
                0xFF80_0000
            },
        })
}

/// Builds the mask of one query. Entries outside `0 .. kv_len` select nothing.
fn mask_row(row: &Vec<i64>, kv_len: usize) -> (r: Vec<F32>)
    requires
        kv_len <= i64::MAX,
    ensures
        is_mask_row(row@, kv_len as int, r@),
{
    let mut r: Vec<F32> = Vec::with_capacity(kv_len);
    let mut j: usize = 0;
    while j < kv_len
        invariant
            j <= kv_len,
            r@.len() == j,
            forall|a: int| 0 <= a < j ==> #[trigger] r@[a] == (F32 { bits: 0xFF80_0000 }),
        decreases kv_len - j,
    {
        r.push(F32 { bits: NEG_INF_BITS });
        j = j + 1;
    }
    let mut x: usize = 0;
    while x < row.len()
        invariant
            x <= row@.len(),
            kv_len <= i64::MAX,
            r@.len() == kv_len,
            forall|j: int|
                0 <= j < kv_len ==> #[trigger] r@[j] == (F32 {
                    bits: if picks(row@.take(x as int), j) {
                        0
                    } else {
                        0xFF80_0000
                    },
                }),
        decreases row@.len() - x,
    {
        let t: i64 = row[x];
        let ghost before = row@.take(x as int);
        let ghost after = row@.take(x + 1);
        proof {
            assert forall|j: int| #[trigger] picks(after, j) == (picks(before, j) || t == j) by {
                if picks(before, j) {
                    let y = choose|y: int| 0 <= y < before.len() && #[trigger] before[y] == j;
                    assert(after[y] == j);
                }
                if t == j {
                    assert(after[x as int] == j);
                }
                if picks(after, j) {
                    let y = choose|y: int| 0 <= y < after.len() && #[trigger] after[y] == j;
                    if y < x {
                        assert(before[y] == j);
                    }
                }
            }
        }
        if 0 <= t && t < kv_len as i64 {
            r.set(t as usize, F32 { bits: 0 });
        }
        x = x + 1;
    }
    proof {
        assert(row@.take(row@.len() as int) =~= row@);
    }
    r
}

/// `masks` are the masks of a selection over `kv_len` cached tokens.
pub open spec fn are_masks(topk: Seq<Seq<Seq<i64>>>, kv_len: int, masks: Seq<Vec<Vec<F32>>>) -> bool {
    &&& masks.len() == topk.len()
    &&& forall|b: int|
        0 <= b < topk.len() ==> (#[trigger] masks[b])@.len() == topk[b].len() && forall|q: int|
            0 <= q < topk[b].len() ==> is_mask_row(
                topk[b][q],
                kv_len,
                (#[trigger] masks[b]@[q])@,
            )
}

/// Copies a row of positions.
fn copy_row(v: &Vec<i64>) -> (r: Vec<i64>)
    ensures
        r@ == v@,
{
    let mut r: Vec<i64> = Vec::with_capacity(v.len());
    let mut i: usize = 0;
    while i < v.len()
        invariant
            i <= v@.len(),
            r@ == v@.take(i as int),
        decreases v@.len() - i,
    {
        r.push(v[i]);
        i = i + 1;
    }
    proof {
        assert(r@ =~= v@);
    }
    r
}

/// Copies a selection.
fn copy_selection(s: &Selection) -> (r: Selection)
    ensures
        tokens(&r) == tokens(s),
{
    let mut out: Selection = Vec::with_capacity(s.len());
    let mut b: usize = 0;
    while b < s.len()
        invariant
            b <= s@.len(),
            out@.len() == b,
            forall|a: int| 0 <= a < b ==> (#[trigger] out@[a])@.len() == s@[a]@.len(),
            forall|a: int, q: int|
                0 <= a < b && 0 <= q < s@[a]@.len() ==> (#[trigger] out@[a]@[q])@ == s@[a]@[q]@,
        decreases s@.len() - b,
    {
        let mut rows: Vec<Vec<i64>> = Vec::with_capacity(s[b].len());
        let mut q: usize = 0;
        while q < s[b].len()
            invariant
                b < s@.len(),
                q <= s@[b as int]@.len(),
                rows@.len() == q,
                forall|x: int| 0 <= x < q ==> (#[trigger] rows@[x])@ == s@[b as int]@[x]@,
            decreases s@[b as int]@.len() - q,
        {
            rows.push(copy_row(&s[b][q]));
            q = q + 1;
        }
        out.push(rows);
        b = b + 1;
    }
    proof {
        assert forall|a: int| 0 <= a < s@.len() implies #[trigger] tokens(&out)[a] == tokens(s)[a] by {
            assert(out@[a]@.len() == s@[a]@.len());
            assert forall|q: int| 0 <= q < s@[a]@.len() implies #[trigger] tokens(&out)[a][q]
                == tokens(s)[a][q] by {
                assert(out@[a]@[q]@ == s@[a]@[q]@);
            }
            assert(tokens(&out)[a] =~= tokens(s)[a]);
        }
        assert(tokens(&out) =~= tokens(s));
    }
    out
}

/// A projection from `inp` to `out` features.
#[derive(Debug, Clone, Copy, PartialEq, Eq, Structural)]
pub struct LinearShape {
    pub inp: usize,
    pub out: usize,
    pub bias: bool,
}

/// The latent attention of a sparse layer: its projections, its indexer and what its
/// cache holds.
pub struct Glm5NextTextAttention {
    pub q_a_proj: LinearShape,
    pub q_b_proj: LinearShape,
    pub kv_a_proj: LinearShape,
    pub kv_b_proj: LinearShape,
    pub o_proj: LinearShape,
    pub num_heads: usize,
    pub qk_head_dim: usize,
    pub qk_nope_head_dim: usize,
    pub v_head_dim: usize,
    pub kv_lora_rank: usize,
    pub qk_rope_head_dim: usize,
    pub indexer: Option<Glm5NextTextIndexer>,
    pub next_skip_topk: bool,
    /// Number of sequences and of tokens in the key-value cache.
    pub kv_cache: Option<(usize, usize)>,
}

/// The layer runs its own indexer; past the schedule every layer does.
pub open spec fn runs_indexer(cfg: &Glm5NextTextConfig, layer_idx: int) -> bool {
    let types = cfg.indexer_schedule();
    !(layer_idx < types.len() && types[layer_idx] == IndexerType::Shared)
}

/// The layer behind `layer_idx` shares its selection; past the schedule the last
/// entry counts.
pub open spec fn next_shares(cfg: &Glm5NextTextConfig, layer_idx: int) -> bool {
    let types = cfg.indexer_schedule();
    if layer_idx + 1 < types.len() {
        types[layer_idx + 1] == IndexerType::Shared
    } else {
        types.len() > 0 && types.last() == IndexerType::Shared
    }
}

/// The indexer of a layer, unless the layer shares the previous selection.
pub fn build_indexer(cfg: &Glm5NextTextConfig, layer_idx: usize) -> (r: Option<Glm5NextTextIndexer>)
    requires
        cfg.index_kpool > 0,
        cfg.index_topk + cfg.index_kpool <= isize::MAX,
    ensures
        r is Some <==> runs_indexer(cfg, layer_idx as int),
        r is Some ==> r->Some_0.wf() && r->Some_0.keys() is None && r->Some_0.kv_len() == 0
            && r->Some_0.index_topk
            == cfg.index_topk && r->Some_0.index_kpool == cfg.index_kpool
            && r->Some_0.always_select_tail == cfg.index_kpool_always_select_tail
            && r->Some_0.num_heads == cfg.index_n_heads && r->Some_0.head_dim == cfg.index_head_dim,
{
    let types: Vec<IndexerType> = cfg.effective_indexer_types();
    if layer_idx < types.len() && types[layer_idx] == IndexerType::Shared {
        None
    } else {
        Some(Glm5NextTextIndexer::new(cfg))
    }
}

/// Whether a layer's selection is handed on to the next layer.
pub fn next_is_shared(cfg: &Glm5NextTextConfig, layer_idx: usize) -> (r: bool)
    requires
        layer_idx < usize::MAX,
    ensures
        r == next_shares(cfg, layer_idx as int),
{
    let types: Vec<IndexerType> = cfg.effective_indexer_types();
    let n: usize = types.len();
    if layer_idx + 1 < n {
        types[layer_idx + 1] == IndexerType::Shared
    } else if n > 0 {
        types[n - 1] == IndexerType::Shared
    } else {
        false
    }
}

/// The products that the projections of a sparse layer need fit in a word.
pub open spec fn attention_sizes_fit(cfg: &Glm5NextTextConfig) -> bool {
    &&& cfg.qk_nope_head_dim + cfg.qk_rope_head_dim <= usize::MAX
    &&& cfg.qk_nope_head_dim + cfg.v_head_dim <= usize::MAX
    &&& cfg.kv_lora_rank + cfg.qk_rope_head_dim <= usize::MAX
    &&& cfg.num_attention_heads * (cfg.qk_nope_head_dim + cfg.qk_rope_head_dim) <= usize::MAX
    &&& cfg.num_attention_heads * (cfg.qk_nope_head_dim + cfg.v_head_dim) <= usize::MAX
    &&& cfg.num_attention_heads * cfg.v_head_dim <= usize::MAX
    &&& cfg.index_kpool > 0
    &&& cfg.index_topk + cfg.index_kpool <= isize::MAX
}

impl Glm5NextTextAttention {
    /// The sizes, the indexer and the flags that the configuration gives layer
    /// `layer_idx`.
    pub open spec fn built(&self, cfg: &Glm5NextTextConfig, layer_idx: int) -> bool {
        &&& self.num_heads == cfg.num_attention_heads
        &&& self.qk_head_dim == cfg.qk_nope_head_dim + cfg.qk_rope_head_dim
        &&& self.qk_nope_head_dim == cfg.qk_nope_head_dim
        &&& self.v_head_dim == cfg.v_head_dim
        &&& self.kv_lora_rank == cfg.kv_lora_rank
        &&& self.qk_rope_head_dim == cfg.qk_rope_head_dim
        &&& self.q_a_proj.inp == cfg.hidden_size
        &&& self.q_a_proj.out == cfg.q_lora_rank
        &&& self.q_a_proj.bias == cfg.attention_bias
        &&& self.q_b_proj.inp == cfg.q_lora_rank
        &&& self.q_b_proj.out == cfg.num_attention_heads * (cfg.qk_nope_head_dim
            + cfg.qk_rope_head_dim)
        &&& !self.q_b_proj.bias
        &&& self.kv_a_proj.inp == cfg.hidden_size
        &&& self.kv_a_proj.out == cfg.kv_lora_rank + cfg.qk_rope_head_dim
        &&& self.kv_a_proj.bias == cfg.attention_bias
        &&& self.kv_b_proj.inp == cfg.kv_lora_rank
        &&& self.kv_b_proj.out == cfg.num_attention_heads * (cfg.qk_nope_head_dim + cfg.v_head_dim)
        &&& !self.kv_b_proj.bias
        &&& self.o_proj.inp == cfg.num_attention_heads * cfg.v_head_dim
        &&& self.o_proj.out == cfg.hidden_size
        &&& self.o_proj.bias == cfg.attention_bias
        &&& self.indexer is Some <==> runs_indexer(cfg, layer_idx)
        &&& self.indexer matches Some(i) ==> {
            &&& i.num_heads == cfg.index_n_heads
            &&& i.head_dim == cfg.index_head_dim
            &&& i.index_topk == cfg.index_topk
            &&& i.index_kpool == cfg.index_kpool
            &&& i.always_select_tail == cfg.index_kpool_always_select_tail
        }
        &&& self.next_skip_topk == next_shares(cfg, layer_idx)
    }

    /// An attention block with empty caches.
    pub fn new(cfg: &Glm5NextTextConfig, layer_idx: usize) -> (r: Self)
        requires
            attention_sizes_fit(cfg),
            layer_idx < usize::MAX,
        ensures
            r.built(cfg, layer_idx as int),
            r.o_proj.inp == cfg.num_attention_heads * cfg.v_head_dim,
            r.kv_b_proj.out == cfg.num_attention_heads * (cfg.qk_nope_head_dim + cfg.v_head_dim),
            r.q_b_proj.out == cfg.num_attention_heads * r.qk_head_dim,
            r.wf(),
            r.is_fresh(),
    {
        let heads: usize = cfg.num_attention_heads;
        let qk_head_dim: usize = cfg.qk_nope_head_dim + cfg.qk_rope_head_dim;
        let bias: bool = cfg.attention_bias;
        Glm5NextTextAttention {
            q_a_proj: LinearShape { inp: cfg.hidden_size, out: cfg.q_lora_rank, bias },
            q_b_proj: LinearShape { inp: cfg.q_lora_rank, out: heads * qk_head_dim, bias: false },
            kv_a_proj: LinearShape {
                inp: cfg.hidden_size,
                out: cfg.kv_lora_rank + cfg.qk_rope_head_dim,
                bias,
            },
            kv_b_proj: LinearShape {
                inp: cfg.kv_lora_rank,
                out: heads * (cfg.qk_nope_head_dim + cfg.v_head_dim),
                bias: false,
            },
            o_proj: LinearShape { inp: heads * cfg.v_head_dim, out: cfg.hidden_size, bias },
            num_heads: heads,
            qk_head_dim,
            qk_nope_head_dim: cfg.qk_nope_head_dim,
            v_head_dim: cfg.v_head_dim,
            kv_lora_rank: cfg.kv_lora_rank,
            qk_rope_head_dim: cfg.qk_rope_head_dim,
            indexer: build_indexer(cfg, layer_idx),
            next_skip_topk: next_is_shared(cfg, layer_idx),
            kv_cache: None,
        }
    }

    /// Nothing but the caches changes.
    pub open spec fn same_settings(&self, other: &Self) -> bool {
        &&& self.q_a_proj == other.q_a_proj
        &&& self.q_b_proj == other.q_b_proj
        &&& self.kv_a_proj == other.kv_a_proj
        &&& self.kv_b_proj == other.kv_b_proj
        &&& self.o_proj == other.o_proj
        &&& self.num_heads == other.num_heads
        &&& self.qk_head_dim == other.qk_head_dim
        &&& self.qk_nope_head_dim == other.qk_nope_head_dim
        &&& self.v_head_dim == other.v_head_dim
        &&& self.kv_lora_rank == other.kv_lora_rank
        &&& self.qk_rope_head_dim == other.qk_rope_head_dim
        &&& self.next_skip_topk == other.next_skip_topk
        &&& self.indexer is Some <==> other.indexer is Some
        &&& self.indexer is Some ==> self.indexer->Some_0.same_settings(&other.indexer->Some_0)
    }

    /// Empties the key-value cache and the indexer's.
    pub fn clear_kv_cache(&mut self)
        requires
            old(self).wf(),
        ensures
            final(self).same_settings(old(self)),
            final(self).wf(),
            final(self).is_fresh(),
    {
        self.kv_cache = None;
        let mut indexer: Option<Glm5NextTextIndexer> = None;
        std::mem::swap(&mut indexer, &mut self.indexer);
        match indexer {
            Some(i) => {
                let mut i: Glm5NextTextIndexer = i;
                i.clear_cache();
                self.indexer = Some(i);
            },
            None => {},
        }
    }

    /// Number of cached tokens per sequence.
    pub open spec fn kv_len(&self) -> int {
        match self.kv_cache {
            Some((_, len)) => len as int,
            None => 0,
        }
    }

    /// The indexer has seen what the key-value cache holds.
    pub open spec fn wf(&self) -> bool {
        match self.indexer {
            Some(i) => {
                &&& i.wf()
                &&& i.kv_len() == self.kv_len()
                &&& match self.kv_cache {
                    Some((batch, _)) => i.keys() is Some && i.keys()->Some_0.len() == batch,
                    None => i.keys() is None,
                }
            },
            None => true,
        }
    }

    /// The caches are empty.
    pub open spec fn is_fresh(&self) -> bool {
        &&& self.kv_cache is None
        &&& match self.indexer {
            Some(i) => i.keys() is None,
            None => true,
        }
    }

    /// The caches hold the same.
    pub open spec fn same_caches(&self, other: &Self) -> bool {
        &&& self.kv_cache == other.kv_cache
        &&& match (self.indexer, other.indexer) {
            (Some(i), Some(o)) => i.keys() == o.keys(),
            _ => true,
        }
    }

    /// Adds `seq` tokens of `batch` sequences to the caches. Where the layer runs an
    /// indexer, returns the pools to be scored.
    pub fn push_tokens(
        &mut self,
        batch: usize,
        seq: usize,
        mask: Option<&Vec<Vec<F32>>>,
    ) -> (r: Result<Option<PooledStates>, LmError>)
        requires
            old(self).wf(),
            old(self).indexer matches Some(i) ==> 2 * (old(self).kv_len() + seq) + i.index_kpool
                <= isize::MAX,
            old(self).kv_len() + seq <= usize::MAX,
        ensures
            final(self).same_settings(old(self)),
            final(self).wf(),
            match old(self).kv_cache {
                Some((have, _)) if have != batch => {
                    &&& r == Err::<Option<PooledStates>, LmError>(
                        LmError::BatchSize { have, got: batch },
                    )
                    &&& final(self).same_caches(old(self))
                },
                _ => match old(self).indexer {
                    None => {
                        &&& r matches Ok(None)
                        &&& final(self).kv_cache == Some(
                            (batch, (old(self).kv_len() + seq) as usize),
                        )
                    },
                    Some(i) => if !mask_fits(mask, batch as int, seq as int) {
                        &&& r == Err::<Option<PooledStates>, LmError>(
                            LmError::MaskShape { batch, seq },
                        )
                        &&& final(self).same_caches(old(self))
                    } else {
                        &&& r matches Ok(Some(p)) && final(self).indexer->Some_0.pools_match(&p)
                        &&& final(self).kv_cache == Some(
                            (batch, (old(self).kv_len() + seq) as usize),
                        )
                        &&& final(self).indexer->Some_0.keys() == Some(
                            appended(i.keys(), batch as nat, seq as nat, mask),
                        )
                    },
                },
            },
    {
        let len: usize = match self.kv_cache {
            Some((have, len)) => {
                if have != batch {
                    return Err(LmError::BatchSize { have, got: batch });
                }
                len
            },
            None => 0,
        };
        let mut indexer: Option<Glm5NextTextIndexer> = None;
        std::mem::swap(&mut indexer, &mut self.indexer);
        match indexer {
            Some(i) => {
                let mut i: Glm5NextTextIndexer = i;
                match i.push_keys(batch, seq, mask) {
                    Ok(()) => {
                        let pooled: PooledStates = i.get_pooled_states();
                        self.indexer = Some(i);
                        self.kv_cache = Some((batch, len + seq));
                        Ok(Some(pooled))
                    },
                    Err(e) => {
                        self.indexer = Some(i);
                        Err(e)
                    },
                }
            },
            None => {
                self.kv_cache = Some((batch, len + seq));
                Ok(None)
            },
        }
    }

    /// What the layer's indexer needs in order to select.
    pub open spec fn can_select(
        &self,
        seq: int,
        mask: Option<&Vec<Vec<F32>>>,
        ranked: &PoolScores,
    ) -> bool {
        let i = self.indexer->Some_0;
        &&& i.keys() is Some
        &&& i.pools_match(&ranked.pooled)
        &&& seq <= self.kv_len()
        &&& 2 * self.kv_len() + i.index_kpool <= isize::MAX
        &&& ranked.pooled.keep@.len() <= u32::MAX
        &&& mask_fits(mask, i.keys()->Some_0.len() as int, seq)
        &&& i.scores_fit(seq, ranked.pooled.keep@, ranked.scores@)
    }

    /// `topk` is what the layer's indexer selects.
    pub open spec fn selects(
        &self,
        seq: int,
        mask: Option<&Vec<Vec<F32>>>,
        ranked: &PoolScores,
        topk: Seq<Seq<Seq<i64>>>,
    ) -> bool {
        let i = self.indexer->Some_0;
        &&& topk.len() == i.keys()->Some_0.len()
        &&& forall|b: int|
            0 <= b < topk.len() ==> (#[trigger] topk[b]).len() == seq && forall|q: int|
                0 <= q < seq ==> i.selects(
                    i.keys()->Some_0[b],
                    ranked.pooled.keep@,
                    ranked.scores@[b]@[q]@,
                    self.kv_len() - seq + q,
                    token_flag(mask, b, q),
                    #[trigger] topk[b][q],
                )
    }

    /// Selects the tokens that the last `seq` queries attend to: by the layer's own
    /// indexer and its pool scores where it runs one, else as the previous full
    /// layer did.
    pub fn forward(
        &self,
        seq: usize,
        mask: Option<&Vec<Vec<F32>>>,
        ranked: Option<&PoolScores>,
        prev_topk: Option<&Selection>,
    ) -> (r: Result<Attended, LmError>)
        requires
            self.wf(),
            self.kv_len() <= i64::MAX,
            self.indexer is Some ==> ranked is Some && self.can_select(
                seq as int,
                mask,
                ranked->Some_0,
            ),
        ensures
            r is Err <==> self.indexer is None && prev_topk is None,
            r is Err ==> r->Err_0 == LmError::NoSharedTopk,
            r matches Ok(a) ==> {
                &&& self.indexer is Some ==> self.selects(
                    seq as int,
                    mask,
                    ranked->Some_0,
                    tokens(&a.topk),
                )
                &&& self.indexer is None ==> tokens(&a.topk) == tokens(prev_topk->Some_0)
                &&& are_masks(tokens(&a.topk), self.kv_len(), a.mask@)
                &&& a.hand_on == self.next_skip_topk
            },
    {
        let kv_len: usize = match self.kv_cache {
            Some((_, len)) => len,
            None => 0,
        };
        let topk: Selection = match (&self.indexer, ranked) {
            (Some(i), Some(own)) => {
                let t: Selection = match i.forward(seq, mask, &own.pooled, &own.scores) {
                    Ok(t) => t,
                    Err(e) => {
                        return Err(e);
                    },
                };
                proof {
                    let keys = i.keys()->Some_0;
                    let rows = tokens(&t);
                    assert forall|b: int| 0 <= b < rows.len() implies (#[trigger] rows[b]).len()
                        == seq && forall|q: int|
                        0 <= q < seq ==> i.selects(
                            keys[b],
                            own.pooled.keep@,
                            own.scores@[b]@[q]@,
                            self.kv_len() - seq + q,
                            token_flag(mask, b, q),
                            #[trigger] rows[b][q],
                        ) by {
                        assert(t@[b]@.len() == seq);
                        assert forall|q: int| 0 <= q < seq implies i.selects(
                            keys[b],
                            own.pooled.keep@,
                            own.scores@[b]@[q]@,
                            self.kv_len() - seq + q,
                            token_flag(mask, b, q),
                            #[trigger] rows[b][q],
                        ) by {
                            assert(rows[b][q] == t@[b]@[q]@);
                        }
                    }
                }
                t
            },
            _ => {
                match prev_topk {
                    Some(t) => copy_selection(t),
                    None => {
                        return Err(LmError::NoSharedTopk);
                    },
                }
            },
        };
        let masks: Vec<Vec<Vec<F32>>> = self.build_attention_mask_from_topk(&topk, kv_len);
        Ok(Attended { topk, mask: masks, hand_on: self.next_skip_topk })
    }

    /// Turns selections into additive attention masks.
    pub fn build_attention_mask_from_topk(
        &self,
        topk: &Selection,
        kv_len: usize,
    ) -> (r: Vec<Vec<Vec<F32>>>)
        requires
            kv_len <= i64::MAX,
        ensures
            are_masks(tokens(topk), kv_len as int, r@),
    {
        let mut out: Vec<Vec<Vec<F32>>> = Vec::with_capacity(topk.len());
        let mut b: usize = 0;
        while b < topk.len()
            invariant
                b <= topk@.len(),
                kv_len <= i64::MAX,
                out@.len() == b,
                forall|a: int|
                    0 <= a < b ==> (#[trigger] out@[a])@.len() == topk@[a]@.len() && forall|q: int|
                        0 <= q < out@[a]@.len() ==> is_mask_row(
                            topk@[a]@[q]@,
                            kv_len as int,
                            (#[trigger] out@[a]@[q])@,
                        ),
            decreases topk@.len() - b,
        {
            let mut rows: Vec<Vec<F32>> = Vec::with_capacity(topk[b].len());
            let mut q: usize = 0;
            while q < topk[b].len()
                invariant
                    b < topk@.len(),
                    q <= topk@[b as int]@.len(),
                    kv_len <= i64::MAX,
                    rows@.len() == q,
                    forall|x: int|
                        0 <= x < q ==> is_mask_row(
                            topk@[b as int]@[x]@,
                            kv_len as int,
                            (#[trigger] rows@[x])@,
                        ),
                decreases topk@[b as int]@.len() - q,
            {
                rows.push(mask_row(&topk[b][q], kv_len));
                q = q + 1;
            }
            out.push(rows);
            b = b + 1;
        }
        out
    }
}

/// Attention is causal: in a layer that runs its indexer, the mask of a query hides
/// every cached token behind the query and every padding token.
pub proof fn law_mask_hides_the_invisible(
    layer: &Glm5NextTextAttention,
    seq: int,
    mask: Option<&Vec<Vec<F32>>>,
    ranked: &PoolScores,
    topk: Seq<Seq<Seq<i64>>>,
    masks: Seq<Vec<Vec<F32>>>,
    b: int,
    q: int,
    j: int,
)
    requires
        layer.wf(),
        layer.indexer is Some,
        layer.indexer->Some_0.keys() is Some,
        layer.selects(seq, mask, ranked, topk),
        are_masks(topk, layer.kv_len(), masks),
        0 <= b < topk.len(),
        0 <= q < seq,
        0 <= j < layer.kv_len(),
        !visible(layer.indexer->Some_0.keys()->Some_0[b], layer.kv_len() - seq + q, j),
    ensures
        masks[b]@[q]@[j].is_inf(),
        masks[b]@[q]@[j].neg(),
{
    let i = layer.indexer->Some_0;
    let valid = i.keys()->Some_0[b];
    let qpos = layer.kv_len() - seq + q;
    assert(topk[b].len() == seq);
    let row = topk[b][q];
    let keep = ranked.pooled.keep@;
    let scores = ranked.scores@[b]@[q]@;
    assert(i.selects(valid, keep, scores, qpos, token_flag(mask, b, q), row));
    assert(masks[b]@.len() == topk[b].len());
    assert(is_mask_row(row, layer.kv_len(), masks[b]@[q]@));
    if picks(row, j) {
        let x = choose|x: int| 0 <= x < row.len() && #[trigger] row[x] == j;
        law_forward_is_causal(
            &i,
            valid,
            keep,
            scores,
            qpos,
            token_flag(mask, b, q),
            row,
            x,
        );
    }
    assert(masks[b]@[q]@[j] == (F32 { bits: 0xFF80_0000 }));
}

/// The projections of a sparse layer compose: the query and key-value bottlenecks feed the
/// projections behind them, the key-value projection gives every head its keys without
/// position and its values, the output projection takes the values of all heads, and the
/// layer reads and writes states of one width. Only the outer projections have a bias.
pub proof fn law_projections_compose(
    a: &Glm5NextTextAttention,
    cfg: &Glm5NextTextConfig,
    layer_idx: int,
)
    requires
        a.built(cfg, layer_idx),
    ensures
        a.q_a_proj.inp == cfg.hidden_size,
        a.kv_a_proj.inp == cfg.hidden_size,
        a.o_proj.out == cfg.hidden_size,
        a.q_a_proj.out == cfg.q_lora_rank,
        a.q_b_proj.inp == a.q_a_proj.out,
        a.qk_head_dim == a.qk_nope_head_dim + a.qk_rope_head_dim,
        a.q_b_proj.out == a.num_heads * a.qk_head_dim,
        a.kv_a_proj.out == a.kv_b_proj.inp + a.qk_rope_head_dim,
        a.kv_b_proj.inp == a.kv_lora_rank,
        a.o_proj.inp == a.num_heads * a.v_head_dim,
        a.o_proj.inp == a.kv_b_proj.out - a.num_heads * a.qk_nope_head_dim,
        a.num_heads == cfg.num_attention_heads,
        a.v_head_dim == cfg.v_head_dim,
        a.qk_nope_head_dim == cfg.qk_nope_head_dim,
        a.qk_rope_head_dim == cfg.qk_rope_head_dim,
        a.kv_lora_rank == cfg.kv_lora_rank,
        !a.q_b_proj.bias && !a.kv_b_proj.bias,
        a.q_a_proj.bias == cfg.attention_bias,
        a.kv_a_proj.bias == cfg.attention_bias,
        a.o_proj.bias == cfg.attention_bias,
{
    let h = cfg.num_attention_heads as int;
    let n = cfg.qk_nope_head_dim as int;
    let v = cfg.v_head_dim as int;
    assert(h * (n + v) == h * n + h * v) by (nonlinear_arith);
}

/// Which layers run an indexer: with no schedule all of them; with one, a layer it names
/// runs its own exactly where it is full, and is handed the previous selection exactly
/// where it is shared. Past the schedule layers run their own, and the last entry says
/// whether a selection is handed on.
pub proof fn law_indexers_follow_the_schedule(cfg: &Glm5NextTextConfig, i: int)
    requires
        0 <= i,
    ensures
        cfg.indexer_types@.len() == 0 ==> runs_indexer(cfg, i) && !next_shares(cfg, i),
        i < cfg.indexer_types@.len() ==> (runs_indexer(cfg, i) <==> cfg.indexer_types@[i]
            == IndexerType::Full),
        i + 1 < cfg.indexer_types@.len() ==> next_shares(cfg, i) != runs_indexer(cfg, i + 1),
        i >= cfg.indexer_types@.len() ==> runs_indexer(cfg, i),
        0 < cfg.indexer_types@.len() <= i + 1 ==> (next_shares(cfg, i)
            <==> cfg.indexer_types@.last() == IndexerType::Shared),
{
    if cfg.indexer_types@.len() == 0 {
        let types = cfg.indexer_schedule();
        assert forall|j: int| 0 <= j < types.len() implies #[trigger] types[j]
            == IndexerType::Full by {}
        if types.len() > 0 {
            assert(types.last() == types[types.len() - 1]);
        }
    }
}

/// The indexer of a built layer has the settings of the configuration, and is there
/// exactly where the layer runs one.
pub proof fn law_indexer_has_the_configured_sizes(
    a: &Glm5NextTextAttention,
    cfg: &Glm5NextTextConfig,
    layer_idx: int,
)
    requires
        a.built(cfg, layer_idx),
        0 <= layer_idx < cfg.indexer_types@.len(),
    ensures
        a.indexer is Some <==> cfg.indexer_types@[layer_idx] == IndexerType::Full,
        a.indexer is Some ==> a.indexer->Some_0.index_topk == cfg.index_topk
            && a.indexer->Some_0.index_kpool == cfg.index_kpool && a.indexer->Some_0.num_heads
            == cfg.index_n_heads && a.indexer->Some_0.head_dim == cfg.index_head_dim
            && a.indexer->Some_0.always_select_tail == cfg.index_kpool_always_select_tail,
        layer_idx + 1 < cfg.indexer_types@.len() ==> (a.next_skip_topk
            <==> cfg.indexer_types@[layer_idx + 1] == IndexerType::Shared),
{
}

/// A mask lets a query through to exactly the tokens that it selected: zero there, and
/// negative infinity at every other cached token.
pub proof fn law_mask_shows_the_selected(
    topk: Seq<Seq<Seq<i64>>>,
    kv_len: int,
    masks: Seq<Vec<Vec<F32>>>,
    b: int,
    q: int,
    j: int,
)
    requires
        are_masks(topk, kv_len, masks),
        0 <= b < topk.len(),
        0 <= q < topk[b].len(),
        0 <= j < kv_len <= i64::MAX,
    ensures
        masks.len() == topk.len(),
        masks[b]@.len() == topk[b].len(),
        masks[b]@[q]@.len() == kv_len,
        topk[b][q].contains(j as i64) ==> masks[b]@[q]@[j].bits == 0,
        !topk[b][q].contains(j as i64) ==> masks[b]@[q]@[j].bits == 0xFF80_0000,
{
    let row = topk[b][q];
    assert(masks[b]@.len() == topk[b].len());
    assert(is_mask_row(row, kv_len, masks[b]@[q]@));
    if row.contains(j as i64) {
        let x = choose|x: int| 0 <= x < row.len() && row[x] == j as i64;
        assert(row[x] == j);
        assert(picks(row, j));
    }
    if picks(row, j) {
        let x = choose|x: int| 0 <= x < row.len() && #[trigger] row[x] == j;
        assert(row.contains(j as i64));
    }
}

} // verus!
