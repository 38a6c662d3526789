//! Passes over the whole model: a prefill and later calls give, position by position, what
//! one call over the whole sequence gives.
//!
//! The arithmetic of the layers is a parameter. What is fixed here is which rows, cached
//! columns, states and keys it is applied to: the short convolution and the recurrence as
//! planned, and the attended tokens as selected or shared.

use vstd::arithmetic::div_mod::{lemma_div_is_ordered, lemma_fundamental_div_mod};
use vstd::prelude::*;
use vstd::set_lib::{lemma_int_range, lemma_len_subset, set_int_range};

use super::decode::{
    better, in_pool, in_tail, in_winner, law_kept_pools_list_candidates,
    law_selects_best_pools_and_tail, lemma_ranking_ignores_later_tokens,
    lemma_winners_ignore_later_tokens, listed_once, picks, ranks_clearly, scored_by, wins,
};
use super::indexer::{
    complete_somewhere, kept_pools, law_forward_is_causal, lemma_kept_bounds, Glm5NextTextIndexer,
};
use super::kda::{
    conv_plan, law_call_continues_the_history, KdaCache, KdaLinearAttention, KdaMath, KdaPlan,
};
use super::model::{Glm5NextDecoderLayer, Glm5NextSelfAttn};
use super::select::{
    candidate, first_valid, law_tail_holds_recent_tokens, pool_complete, pool_token, tail_token,
};
use crate::float::F32;
use crate::indices::law_indices_where;

verus! {

/// The arithmetic of a sparse layer: `key` is what a position leaves in the cache,
/// `score` ranks the keys of a pool for a query, and `attend` gives the output row from
/// the attended keys by position.
#[verifier::reject_recursive_types(H)]
#[verifier::reject_recursive_types(K)]
pub struct SparseMath<H, K> {
    pub key: spec_fn(H) -> K,
    pub score: spec_fn(H, Seq<K>) -> F32,
    pub attend: spec_fn(H, Map<int, K>) -> H,
}

/// The arithmetic of a layer, its feed-forward part included.
#[verifier::reject_recursive_types(H)]
#[verifier::reject_recursive_types(K)]
#[verifier::reject_recursive_types(T)]
#[verifier::reject_recursive_types(U)]
#[verifier::reject_recursive_types(S)]
pub enum LayerMath<H, K, T, U, S> {
    Linear(KdaMath<H, T, U, S, H>),
    Sparse(SparseMath<H, K>),
}

/// What a layer carries from call to call, for one sequence.
pub enum LayerCache<K, T, S> {
    Linear(KdaCache<T, S>),
    Sparse(Seq<K>),
}

/// The selections of a call: after every layer, for every query, the tokens that a layer
/// behind it may share; and the pool scores of the layers that select.
pub struct Choices {
    pub picked: Seq<Seq<Seq<i64>>>,
    pub scores: Seq<Seq<Seq<F32>>>,
}

/// A model: its layers, their arithmetic, the embedding of a token and the logits of a
/// position.
#[verifier::reject_recursive_types(H)]
#[verifier::reject_recursive_types(K)]
#[verifier::reject_recursive_types(T)]
#[verifier::reject_recursive_types(U)]
#[verifier::reject_recursive_types(S)]
pub struct Pass<H, K, T, U, S, L> {
    pub layers: Seq<Glm5NextDecoderLayer>,
    pub math: Seq<LayerMath<H, K, T, U, S>>,
    pub embed: spec_fn(u32) -> H,
    pub logits: spec_fn(H) -> L,
}

/// Flags of `n` real tokens.
pub open spec fn all_valid(n: nat) -> Seq<bool> {
    Seq::new(n, |i: int| true)
}

/// The keys of pool `p`.
pub open spec fn pool_keys<K>(keys: Seq<K>, k: int, p: int) -> Seq<K> {
    keys.subrange(p * k, p * k + k)
}

/// The keys that are attended to, by position.
pub open spec fn attended_keys<K>(keys: Seq<K>, on: spec_fn(int) -> bool) -> Map<int, K> {
    Map::new(|j: int| 0 <= j < keys.len() && on(j), |j: int| keys[j])
}

impl<H, K> SparseMath<H, K> {
    /// The keys of the rows.
    pub open spec fn keys_of(&self, rows: Seq<H>) -> Seq<K> {
        rows.map_values(|h: H| (self.key)(h))
    }

    /// The scores that the last row gives to the pools of `past`.
    pub open spec fn last_scores(&self, past: Seq<H>, k: int) -> spec_fn(int) -> F32 {
        |p: int| (self.score)(past.last(), pool_keys(self.keys_of(past), k, p))
    }

    /// It is clear which pools are the best for the last row of `past`.
    pub open spec fn last_ranks_clearly(&self, i: &Glm5NextTextIndexer, past: Seq<H>) -> bool {
        ranks_clearly(
            all_valid(past.len()),
            i.index_kpool as int,
            past.len() - 1,
            self.last_scores(past, i.index_kpool as int),
            (i.index_topk / i.index_kpool) as nat,
        )
    }

    /// The last row of `past` attends to token `j`: it lies in one of the best pools, or
    /// in the tail.
    pub open spec fn last_attends(&self, i: &Glm5NextTextIndexer, past: Seq<H>, j: int) -> bool {
        let k = i.index_kpool as int;
        let p = past.len() - 1;
        ||| in_winner(
            all_valid(past.len()),
            k,
            p,
            self.last_scores(past, k),
            (i.index_topk / i.index_kpool) as nat,
            j,
        )
        ||| i.always_select_tail && in_tail(all_valid(past.len()), k, p, j)
    }
}

/// All complete pools of `len` tokens fit in a selection.
pub open spec fn all_fit(i: &Glm5NextTextIndexer, len: nat) -> bool {
    len as int / i.index_kpool as int <= i.index_topk / i.index_kpool
}

/// The plan of a call of a linear layer over `len` tokens.
pub open spec fn linear_plan(a: KdaLinearAttention, resume: bool, len: int) -> KdaPlan {
    KdaPlan {
        conv: conv_plan(a.conv_kernel as int, resume, len),
        resume,
        q_start: 0,
        k_start: a.qkv_dim,
        v_start: (2 * a.qkv_dim) as usize,
    }
}

impl<H, K, T, U, S, L> Pass<H, K, T, U, S, L> {
    /// Every layer has the arithmetic of its kind, and every layer that shares a
    /// selection comes behind one that makes it.
    pub open spec fn wf(&self) -> bool {
        &&& self.math.len() == self.layers.len()
        &&& forall|l: int|
            0 <= l < self.layers.len() ==> match (
                (#[trigger] self.layers[l]).self_attn,
                self.math[l],
            ) {
                (Glm5NextSelfAttn::Linear(a), LayerMath::Linear(_)) => a.conv_kernel >= 1,
                (Glm5NextSelfAttn::Sparse(a), LayerMath::Sparse(_)) => match a.indexer {
                    Some(i) => i.index_kpool > 0,
                    None => exists|f: int| 0 <= f < l && (#[trigger] self.layers[f]).is_full(),
                },
                _ => false,
            }
    }

    /// The embedded tokens.
    pub open spec fn embedded(&self, ids: Seq<u32>) -> Seq<H> {
        ids.map_values(|t: u32| (self.embed)(t))
    }

    /// The logits of the rows.
    pub open spec fn logits_of(&self, rows: Seq<H>) -> Seq<L> {
        rows.map_values(|h: H| (self.logits)(h))
    }

    /// The last layer up to `l` that selects, or -1.
    pub open spec fn selector(&self, l: nat) -> int
        decreases l,
    {
        if self.layers[l as int].is_full() {
            l as int
        } else if l == 0 {
            -1
        } else {
            self.selector((l - 1) as nat)
        }
    }

    /// Position `p` attends to token `j` where layer `f` selects from its input `seen`.
    pub open spec fn sees(&self, f: int, seen: Seq<H>, p: int, j: int) -> bool {
        match (self.layers[f].self_attn, self.math[f]) {
            (Glm5NextSelfAttn::Sparse(a), LayerMath::Sparse(m)) => a.indexer is Some
                && m.last_attends(&a.indexer->Some_0, seen.take(p + 1), j),
            _ => false,
        }
    }

    /// The row at position `p` after layer `l`, from the rows `before` it and the rows
    /// `seen` by the layer `f` that selects for it.
    pub open spec fn row_out(&self, l: int, f: int, before: Seq<H>, seen: Seq<H>, p: int) -> H {
        match (self.layers[l].self_attn, self.math[l]) {
            (Glm5NextSelfAttn::Linear(a), LayerMath::Linear(m)) => m.output_at(
                a.conv_kernel as int,
                before,
                p,
            ),
            (_, LayerMath::Sparse(m)) => (m.attend)(
                before[p],
                attended_keys(
                    m.keys_of(before.take(p + 1)),
                    |j: int| self.sees(f, seen, p, j),
                ),
            ),
            _ => before[p],
        }
    }

    /// The rows of a whole sequence after the first `l` layers: the row at a position is
    /// computed from the rows up to it.
    pub open spec fn rows_at(&self, xs: Seq<H>, l: nat) -> Seq<H>
        decreases l,
    {
        if l == 0 {
            xs
        } else {
            let before = self.rows_at(xs, (l - 1) as nat);
            let f = self.selector((l - 1) as nat);
            let seen = if 0 <= f < l {
                self.rows_at(xs, f as nat)
            } else {
                before
            };
            Seq::new(xs.len(), |p: int| self.row_out(l - 1, f, before, seen, p))
        }
    }

    /// What the layers carry after a whole sequence. After none, it is what a fresh model
    /// has: zero columns, a zero state and no keys.
    pub open spec fn caches_at(&self, xs: Seq<H>) -> Seq<LayerCache<K, T, S>> {
        Seq::new(
            self.layers.len(),
            |l: int|
                match (self.layers[l].self_attn, self.math[l]) {
                    (Glm5NextSelfAttn::Linear(a), LayerMath::Linear(m)) => LayerCache::Linear(
                        m.cache_at(a.conv_kernel as int, self.rows_at(xs, l as nat)),
                    ),
                    (_, LayerMath::Sparse(m)) => LayerCache::Sparse(
                        m.keys_of(self.rows_at(xs, l as nat)),
                    ),
                    (_, LayerMath::Linear(m)) => LayerCache::Sparse(Seq::empty()),
                },
        )
    }

    /// At the positions from `from` on, it is settled which pools every selecting layer
    /// chooses.
    pub open spec fn settled_from(&self, xs: Seq<H>, from: int) -> bool {
        forall|l: int, p: int|
            0 <= l < self.layers.len() && from <= p < xs.len() ==> #[trigger] self.settled_at(
                xs,
                l,
                p,
            )
    }

    /// It is settled which pools layer `l` chooses for the query at position `p`: all
    /// complete pools fit, whatever they score, or it is clear which are the best.
    pub open spec fn settled_at(&self, xs: Seq<H>, l: int, p: int) -> bool {
        match (self.layers[l].self_attn, self.math[l]) {
            (Glm5NextSelfAttn::Sparse(a), LayerMath::Sparse(m)) if a.indexer is Some => {
                let i = a.indexer->Some_0;
                ||| all_fit(&i, xs.len())
                ||| m.last_ranks_clearly(&i, self.rows_at(xs, l as nat).take(p + 1))
            },
            _ => true,
        }
    }

    /// The output rows of layer `l` in a call on the rows `xs` behind `n` cached positions.
    pub open spec fn layer_out(
        &self,
        l: int,
        cache: LayerCache<K, T, S>,
        n: nat,
        xs: Seq<H>,
        picked: Seq<Seq<i64>>,
    ) -> Seq<H> {
        match (self.layers[l].self_attn, self.math[l], cache) {
            (
                Glm5NextSelfAttn::Linear(a),
                LayerMath::Linear(m),
                LayerCache::Linear(c),
            ) => m.outputs(
                linear_plan(a, n > 0, xs.len() as int),
                a.conv_kernel as int,
                c,
                xs,
            ),
            (_, LayerMath::Sparse(m), LayerCache::Sparse(c)) => Seq::new(
                xs.len(),
                |q: int|
                    (m.attend)(
                        xs[q],
                        attended_keys(c + m.keys_of(xs), |j: int| picks(picked[q], j)),
                    ),
            ),
            _ => xs,
        }
    }

    /// What layer `l` carries afterwards.
    pub open spec fn layer_leaves(&self, l: int, cache: LayerCache<K, T, S>, n: nat, xs: Seq<H>) -> LayerCache<
        K,
        T,
        S,
    > {
        match (self.layers[l].self_attn, self.math[l], cache) {
            (
                Glm5NextSelfAttn::Linear(a),
                LayerMath::Linear(m),
                LayerCache::Linear(c),
            ) => LayerCache::Linear(
                m.leaves(linear_plan(a, n > 0, xs.len() as int), a.conv_kernel as int, c, xs),
            ),
            (_, LayerMath::Sparse(m), LayerCache::Sparse(c)) => LayerCache::Sparse(
                c + m.keys_of(xs),
            ),
            _ => cache,
        }
    }

    /// The rows of a call after the first `l` layers.
    pub open spec fn call_rows(
        &self,
        caches: Seq<LayerCache<K, T, S>>,
        n: nat,
        xs: Seq<H>,
        choices: Choices,
        l: nat,
    ) -> Seq<H>
        decreases l,
    {
        if l == 0 {
            xs
        } else {
            self.layer_out(
                l - 1,
                caches[l - 1],
                n,
                self.call_rows(caches, n, xs, choices, (l - 1) as nat),
                choices.picked[l - 1],
            )
        }
    }

    /// What a call leaves in the caches.
    pub open spec fn call_leaves(
        &self,
        caches: Seq<LayerCache<K, T, S>>,
        n: nat,
        xs: Seq<H>,
        choices: Choices,
    ) -> Seq<LayerCache<K, T, S>> {
        Seq::new(
            self.layers.len(),
            |l: int|
                self.layer_leaves(
                    l,
                    caches[l],
                    n,
                    self.call_rows(caches, n, xs, choices, l as nat),
                ),
        )
    }

    /// Layer `l` selects as its indexer does, from scores of its own rows; a layer without
    /// an indexer hands on what it was handed. `batch` sequences are run side by side.
    pub open spec fn layer_chooses(
        &self,
        caches: Seq<LayerCache<K, T, S>>,
        n: nat,
        xs: Seq<H>,
        batch: nat,
        choices: Choices,
        l: int,
    ) -> bool {
        match (self.layers[l].self_attn, self.math[l], caches[l]) {
            (
                Glm5NextSelfAttn::Sparse(a),
                LayerMath::Sparse(m),
                LayerCache::Sparse(c),
            ) if a.indexer is Some => {
                let i = a.indexer->Some_0;
                let k = i.index_kpool as int;
                let rows = self.call_rows(caches, n, xs, choices, l as nat);
                let keys = c + m.keys_of(rows);
                let len = n + xs.len();
                let keep = kept_pools(
                    Seq::new(batch, |b: int| all_valid(len)),
                    len as int,
                    k,
                );
                &&& choices.picked[l].len() == xs.len()
                &&& forall|q: int|
                    0 <= q < xs.len() ==> {
                        &&& (#[trigger] choices.scores[l][q]).len() == keep.len()
                        &&& forall|s: int|
                            0 <= s < keep.len() ==> #[trigger] choices.scores[l][q][s]
                                == (m.score)(rows[q], pool_keys(keys, k, keep[s] as int))
                        &&& i.selects(
                            all_valid(len),
                            keep,
                            choices.scores[l][q],
                            n + q,
                            true,
                            choices.picked[l][q],
                        )
                    }
            },
            _ => l > 0 ==> choices.picked[l] == choices.picked[l - 1],
        }
    }

    /// The selections of a call.
    pub open spec fn chooses(
        &self,
        caches: Seq<LayerCache<K, T, S>>,
        n: nat,
        xs: Seq<H>,
        batch: nat,
        choices: Choices,
    ) -> bool {
        forall|l: int|
            0 <= l < self.layers.len() ==> #[trigger] self.layer_chooses(
                caches,
                n,
                xs,
                batch,
                choices,
                l,
            )
    }

    /// The logits of a call.
    pub open spec fn call_logits(
        &self,
        caches: Seq<LayerCache<K, T, S>>,
        n: nat,
        ids: Seq<u32>,
        choices: Choices,
    ) -> Seq<L> {
        self.logits_of(self.call_rows(caches, n, self.embedded(ids), choices, self.layers.len()))
    }

    /// The rows of a whole sequence are as many as its positions.
    proof fn lemma_len(&self, xs: Seq<H>, l: nat)
        ensures
            self.rows_at(xs, l).len() == xs.len(),
    {
    }

    /// Rows up to a position do not depend on what follows.
    proof fn lemma_rows_of_prefix(&self, a: Seq<H>, b: Seq<H>, l: nat)
        requires
            self.wf(),
            l <= self.layers.len(),
        ensures
            self.rows_at(a, l) == self.rows_at(a + b, l).take(a.len() as int),
        decreases l,
    {
        let all = a + b;
        if l == 0 {
            assert(all.take(a.len() as int) =~= a);
        } else {
            let m = (l - 1) as nat;
            let f = self.selector(m);
            self.lemma_rows_of_prefix(a, b, m);
            let ra = self.rows_at(a, m);
            let rb = self.rows_at(all, m);
            let rest = rb.skip(a.len() as int);
            let (sa, sb) = if 0 <= f < l {
                self.lemma_rows_of_prefix(a, b, f as nat);
                self.lemma_len(a, f as nat);
                self.lemma_len(all, f as nat);
                (self.rows_at(a, f as nat), self.rows_at(all, f as nat))
            } else {
                (ra, rb)
            };
            self.lemma_len(a, m);
            self.lemma_len(all, m);
            assert(ra + rest =~= rb);
            assert(self.layers[m as int] == self.layers[l - 1]);
            assert forall|p: int| 0 <= p < a.len() implies #[trigger] self.rows_at(a, l)[p]
                == self.rows_at(all, l)[p] by {
                assert(ra[p] == rb[p]);
                assert(ra.take(p + 1) =~= rb.take(p + 1));
                assert(sa.take(p + 1) =~= sb.take(p + 1));
                match (self.layers[l - 1].self_attn, self.math[l - 1]) {
                    (Glm5NextSelfAttn::Linear(x), LayerMath::Linear(math)) => {
                        math.lemma_prefix(x.conv_kernel as int, ra, rest, (p + 1) as nat);
                    },
                    (_, LayerMath::Sparse(math)) => {
                        assert(attended_keys(
                            math.keys_of(ra.take(p + 1)),
                            |j: int| self.sees(f, sa, p, j),
                        ) =~= attended_keys(
                            math.keys_of(rb.take(p + 1)),
                            |j: int| self.sees(f, sb, p, j),
                        ));
                    },
                    _ => {},
                }
                assert(self.row_out(l - 1, f, ra, sa, p) == self.row_out(l - 1, f, rb, sb, p));
            }
            assert(self.rows_at(a, l) =~= self.rows_at(all, l).take(a.len() as int));
        }
    }

    /// A layer that shares finds a layer that selects.
    proof fn lemma_selector(&self, l: nat, f: int)
        requires
            0 <= f <= l,
            self.layers[f].is_full(),
        ensures
            f <= self.selector(l) <= l,
        decreases l,
    {
        if f < l && !self.layers[l as int].is_full() {
            self.lemma_selector((l - 1) as nat, f);
        }
    }

    proof fn lemma_selector_bound(&self, l: nat)
        ensures
            -1 <= self.selector(l) <= l,
            self.selector(l) >= 0 ==> self.layers[self.selector(l)].is_full(),
        decreases l,
    {
        if l > 0 {
            self.lemma_selector_bound((l - 1) as nat);
        }
    }

    /// What layer `l` hands on are the tokens that the whole sequence attends to there,
    /// none of them behind its query.
    spec fn picks_match(&self, all: Seq<H>, n: nat, picked: Seq<Seq<i64>>, l: nat) -> bool {
        let f = self.selector(l);
        f >= 0 ==> forall|q: int, j: int|
            0 <= q < all.len() - n && 0 <= j ==> (#[trigger] picks(picked[q], j) == self.sees(
                f,
                self.rows_at(all, f as nat),
                n + q,
                j,
            )) && (picks(picked[q], j) ==> j <= n + q)
    }

    /// The rows of a call after `l` layers are those of the whole sequence.
    spec fn rows_match(&self, hist: Seq<H>, xs: Seq<H>, choices: Choices, l: nat) -> bool {
        self.call_rows(self.caches_at(hist), hist.len(), xs, choices, l) == self.rows_at(
            hist + xs,
            l,
        ).skip(hist.len() as int)
    }

    /// One layer of a call.
    proof fn lemma_layer(
        &self,
        hist: Seq<H>,
        xs: Seq<H>,
        batch: nat,
        choices: Choices,
        l: nat,
    )
        requires
            self.wf(),
            l < self.layers.len(),
            xs.len() > 0,
            hist.len() + xs.len() <= isize::MAX,
            batch > 0,
            self.chooses(self.caches_at(hist), hist.len(), xs, batch, choices),
            self.settled_from(hist + xs, hist.len() as int),
            self.rows_match(hist, xs, choices, l),
            l > 0 ==> self.picks_match(
                hist + xs,
                hist.len(),
                choices.picked[l - 1],
                (l - 1) as nat,
            ),
        ensures
            self.rows_match(hist, xs, choices, l + 1),
            self.picks_match(hist + xs, hist.len(), choices.picked[l as int], l),
            self.call_leaves(self.caches_at(hist), hist.len(), xs, choices)[l as int]
                == self.caches_at(hist + xs)[l as int],
    {
        let all = hist + xs;
        let n = hist.len();
        let caches = self.caches_at(hist);
        let rows = self.call_rows(caches, n, xs, choices, l);
        let whole = self.rows_at(all, l);
        let old = self.rows_at(hist, l);
        let layer = self.layers[l as int];
        let picked = choices.picked[l as int];
        self.lemma_rows_of_prefix(hist, xs, l);
        self.lemma_len(all, l);
        self.lemma_len(hist, l);
        assert(old + rows =~= whole);
        assert(self.layer_chooses(caches, n, xs, batch, choices, l as int));
        self.lemma_selector_bound(l);
        let f = self.selector(l);
        match (layer.self_attn, self.math[l as int]) {
            (Glm5NextSelfAttn::Linear(a), LayerMath::Linear(m)) => {
                let plan = linear_plan(a, n > 0, xs.len() as int);
                law_call_continues_the_history(m, plan, a.conv_kernel as int, old, rows);
                assert(caches[l as int] == LayerCache::<K, T, S>::Linear(
                    m.cache_at(a.conv_kernel as int, old),
                ));
                let out = self.layer_out(l as int, caches[l as int], n, rows, picked);
                assert forall|q: int| 0 <= q < xs.len() implies #[trigger] out[q] == self.rows_at(
                    all,
                    l + 1,
                ).skip(n as int)[q] by {
                    assert(out[q] == m.output_at(a.conv_kernel as int, whole, n + q));
                }
                assert(self.call_rows(caches, n, xs, choices, l + 1) =~= self.rows_at(
                    all,
                    l + 1,
                ).skip(n as int));
            },
            (Glm5NextSelfAttn::Sparse(a), LayerMath::Sparse(m)) => {
                let c = m.keys_of(old);
                assert(caches[l as int] == LayerCache::<K, T, S>::Sparse(c));
                assert(c + m.keys_of(rows) =~= m.keys_of(whole));
                if layer.is_full() {
                    let i = a.indexer->Some_0;
                    assert forall|q: int, j: int| 0 <= q < all.len() - n && 0 <= j implies (
                    #[trigger] picks(picked[q], j) == self.sees(f, whole, n + q, j)) && (picks(
                        picked[q],
                        j,
                    ) ==> j <= n + q) by {
                        assert(self.settled_at(all, l as int, n + q));
                        assert(choices.scores[l as int][q].len() >= 0);
                        assert(rows[q] == whole[n + q]);
                        lemma_selection(
                            &i,
                            m,
                            whole,
                            n + q,
                            batch,
                            choices.scores[l as int][q],
                            picked[q],
                            j,
                        );
                    }
                } else {
                    let g = choose|g: int| 0 <= g < l && (#[trigger] self.layers[g]).is_full();
                    self.lemma_selector(l, g);
                }
                assert(self.picks_match(all, n, picked, l));
                let seen = self.rows_at(all, f as nat);
                let out = self.layer_out(l as int, caches[l as int], n, rows, picked);
                assert forall|q: int| 0 <= q < xs.len() implies #[trigger] out[q] == self.rows_at(
                    all,
                    l + 1,
                ).skip(n as int)[q] by {
                    let p = n + q;
                    assert(rows[q] == whole[p]);
                    let mine = attended_keys(
                        c + m.keys_of(rows),
                        |j: int| picks(picked[q], j),
                    );
                    let theirs = attended_keys(
                        m.keys_of(whole.take(p + 1)),
                        |j: int| self.sees(f, seen, p, j),
                    );
                    assert(mine =~= theirs) by {
                        assert forall|j: int| mine.dom().contains(j) == theirs.dom().contains(j) by {
                            if 0 <= j {
                                assert(picks(picked[q], j) == self.sees(f, seen, p, j));
                            }
                        }
                        assert forall|j: int| #[trigger] mine.dom().contains(j) implies mine[j]
                            == theirs[j] by {
                            assert(theirs.dom().contains(j));
                            assert(whole.take(p + 1)[j] == whole[j]);
                        }
                    }
                    assert(out[q] == (m.attend)(rows[q], mine));
                    assert(self.row_out(l as int, f, whole, seen, p) == (m.attend)(
                        whole[p],
                        theirs,
                    ));
                }
                assert(self.call_rows(caches, n, xs, choices, l + 1) =~= self.rows_at(
                    all,
                    l + 1,
                ).skip(n as int));
            },
            _ => {},
        }
    }

    /// All layers of a call.
    proof fn lemma_call(&self, hist: Seq<H>, xs: Seq<H>, batch: nat, choices: Choices, l: nat)
        requires
            self.wf(),
            l <= self.layers.len(),
            xs.len() > 0,
            hist.len() + xs.len() <= isize::MAX,
            batch > 0,
            self.chooses(self.caches_at(hist), hist.len(), xs, batch, choices),
            self.settled_from(hist + xs, hist.len() as int),
        ensures
            self.rows_match(hist, xs, choices, l),
            l > 0 ==> self.picks_match(
                hist + xs,
                hist.len(),
                choices.picked[l - 1],
                (l - 1) as nat,
            ),
            forall|i: int|
                0 <= i < l ==> #[trigger] self.call_leaves(
                    self.caches_at(hist),
                    hist.len(),
                    xs,
                    choices,
                )[i] == self.caches_at(hist + xs)[i],
        decreases l,
    {
        if l == 0 {
            assert((hist + xs).skip(hist.len() as int) =~= xs);
        } else {
            self.lemma_call(hist, xs, batch, choices, (l - 1) as nat);
            self.lemma_layer(hist, xs, batch, choices, (l - 1) as nat);
        }
    }
}

/// With real tokens only, pools are counted from the first position.
proof fn lemma_pools_of_valid(n: nat, k: int, p: int, qpos: int)
    requires
        n > 0,
        k > 0,
        p >= 0,
        candidate(all_valid(n), k, p, qpos),
    ensures
        0 <= p * k,
        p * k + k <= qpos + 1,
{
    let valid = all_valid(n);
    assert(valid[0]);
    assert(first_valid(valid) == 0);
    assert(pool_token(valid, k, p, k - 1) == p * k + k - 1);
    assert(0 <= p * k) by (nonlinear_arith)
        requires
            p >= 0,
            k > 0,
    ;
}

/// The kept pools of real tokens: each is listed once, every candidate is among them, and
/// they are no more than the complete ones.
proof fn lemma_kept(len: nat, k: int, batch: nat, qpos: int)
    requires
        0 < len <= isize::MAX,
        k > 0,
        batch > 0,
    ensures
        ({
            let keep = kept_pools(Seq::new(batch, |b: int| all_valid(len)), len as int, k);
            &&& listed_once(keep)
            &&& keep.len() <= len as int / k
            &&& keep.len() <= usize::MAX
            &&& forall|p: int|
                0 <= p && #[trigger] candidate(all_valid(len), k, p, qpos) ==> p <= usize::MAX
                    && keep.contains(p as usize)
        }),
{
    let valid = all_valid(len);
    let keys = Seq::new(batch, |b: int| valid);
    assert(keys =~= Seq::new(batch, |b: int| all_valid(len)));
    let keep = kept_pools(keys, len as int, k);
    let n = (len + k - 1) / k;
    let flags = Seq::new(n as nat, |p: int| complete_somewhere(keys, k, p));
    lemma_fundamental_div_mod(len + k - 1, k);
    assert(0 <= n <= len) by (nonlinear_arith)
        requires
            k > 0,
            len > 0,
            len + k - 1 == k * n + (len + k - 1) % k,
            0 <= (len + k - 1) % k < k,
    ;
    law_indices_where(flags, n as nat);
    lemma_kept_bounds(flags, n as nat);
    assert(keys[0] == valid);
    assert(valid[0]);
    assert(first_valid(valid) == 0);
    assert forall|p: int| 0 <= p && #[trigger] candidate(valid, k, p, qpos) implies p
        <= usize::MAX && keep.contains(p as usize) by {
        law_kept_pools_list_candidates(keys, len as int, k, 0, qpos, p);
    }
    if keep.len() > 0 {
        let last = keep.len() - 1;
        let p = keep[last] as int;
        lemma_increasing(keep, last);
        assert(flags[p]);
        let b = choose|b: int| 0 <= b < keys.len() && #[trigger] pool_complete(keys[b], k, p);
        assert(pool_token(valid, k, p, k - 1) < len);
        lemma_fundamental_div_mod(len as int, k);
        let d = len as int / k;
        assert(p < d) by (nonlinear_arith)
            requires
                p * k + k - 1 < len,
                len == k * d + len as int % k,
                0 <= len as int % k < k,
                k > 0,
        ;
    }
}

/// Increasing numbers outgrow their places.
proof fn lemma_increasing(list: Seq<usize>, i: int)
    requires
        0 <= i < list.len(),
        forall|a: int, b: int| 0 <= a < b < list.len() ==> #[trigger] list[a] < #[trigger] list[b],
    ensures
        list[i] >= i,
    decreases i,
{
    if i > 0 {
        lemma_increasing(list, i - 1);
        assert(list[i - 1] < list[i]);
    }
}

/// In a short context, where all complete pools fit, a query that always takes its tail
/// selects every token up to itself and nothing else, whatever the scores are.
pub proof fn law_short_context_selects_everything(
    i: &Glm5NextTextIndexer,
    len: nat,
    batch: nat,
    scores: Seq<F32>,
    qpos: int,
    out: Seq<i64>,
    j: int,
)
    requires
        i.index_kpool > 0,
        i.always_select_tail,
        all_fit(i, len),
        0 <= qpos < len <= isize::MAX,
        batch > 0,
        j >= 0,
        ({
            let keep = kept_pools(
                Seq::new(batch, |b: int| all_valid(len)),
                len as int,
                i.index_kpool as int,
            );
            &&& scores.len() == keep.len()
            &&& i.selects(all_valid(len), keep, scores, qpos, true, out)
        }),
    ensures
        picks(out, j) <==> j <= qpos,
{
    let k = i.index_kpool as int;
    let want = (i.index_topk / i.index_kpool) as nat;
    let valid = all_valid(len);
    let keep = kept_pools(Seq::new(batch, |b: int| all_valid(len)), len as int, k);
    let place = |p: int| choose|s: int| 0 <= s < keep.len() && #[trigger] keep[s] == p;
    let score = |p: int| scores[place(p)];
    lemma_kept(len, k, batch, qpos);
    assert(scored_by(valid, k, qpos, keep, scores, score)) by {
        assert forall|s: int|
            0 <= s < keep.len() && candidate(valid, k, keep[s] as int, qpos) implies #[trigger] scores[s]
            == score(keep[s] as int) by {
            let t = place(keep[s] as int);
            assert(0 <= t < keep.len() && keep[t] == keep[s]);
            if t < s {
                assert(keep[t] != keep[s]);
            } else if s < t {
                assert(keep[s] != keep[t]);
            }
        }
    }
    law_selects_best_pools_and_tail(i, valid, keep, scores, qpos, out, score, j);
    if picks(out, j) {
        let x = choose|x: int| 0 <= x < out.len() && #[trigger] out[x] == j;
        law_forward_is_causal(i, valid, keep, scores, qpos, true, out, x);
    }
    if j <= qpos {
        assert(valid[0]);
        assert(first_valid(valid) == 0);
        let pools = (qpos + 1) / k;
        lemma_fundamental_div_mod(qpos + 1, k);
        assert(pools * k == k * pools) by (nonlinear_arith);
        if j >= pools * k {
            law_tail_holds_recent_tokens(valid, k, qpos, j);
            assert(tail_token(valid, k, qpos, j - pools * k) == j);
            assert(in_tail(valid, k, qpos, j));
        } else {
            let p = j / k;
            lemma_fundamental_div_mod(j, k);
            assert(p * k == k * p) by (nonlinear_arith);
            assert(0 <= p < pools && p * k + k <= pools * k) by (nonlinear_arith)
                requires
                    j == k * p + j % k,
                    0 <= j % k < k,
                    0 <= j < pools * k,
                    k > 0,
            ;
            assert forall|t: int| 0 <= t < k implies #[trigger] pool_token(valid, k, p, t)
                < valid.len() && valid[pool_token(valid, k, p, t)] by {
                assert(pool_token(valid, k, p, t) == p * k + t);
            }
            assert(pool_token(valid, k, p, k - 1) == p * k + k - 1);
            assert(candidate(valid, k, p, qpos));
            lemma_few_better(len, k, qpos, score, p, pools);
            lemma_fundamental_div_mod(len as int, k);
            let d = len as int / k;
            assert(pools <= d) by (nonlinear_arith)
                requires
                    qpos + 1 <= len,
                    qpos + 1 == k * pools + (qpos + 1) % k,
                    0 <= (qpos + 1) % k,
                    len == k * d + len as int % k,
                    0 <= len as int % k < k,
                    k > 0,
            ;
            assert(wins(valid, k, qpos, score, want, p));
            assert(pool_token(valid, k, p, 0) == p * k);
            assert(in_pool(valid, k, p, j));
            assert(in_winner(valid, k, qpos, score, want, j));
        }
    }
}

/// Fewer candidates outscore one of them than there are complete pools up to the query.
proof fn lemma_few_better(len: nat, k: int, qpos: int, score: spec_fn(int) -> F32, p: int, pools: int)
    requires
        len > 0,
        k > 0,
        0 <= qpos < len,
        0 <= p < pools,
        pools == (qpos + 1) / k,
    ensures
        better(all_valid(len), k, qpos, score, p).len() < pools,
{
    let up = better(all_valid(len), k, qpos, score, p);
    let range = set_int_range(0, pools);
    lemma_int_range(0, pools);
    lemma_fundamental_div_mod(qpos + 1, k);
    assert forall|q: int| up.insert(p).contains(q) implies range.contains(q) by {
        if q != p {
            lemma_pools_of_valid(len, k, q, qpos);
            assert(q < pools) by (nonlinear_arith)
                requires
                    q * k + k <= qpos + 1,
                    qpos + 1 == k * pools + (qpos + 1) % k,
                    0 <= (qpos + 1) % k < k,
                    k > 0,
            ;
        }
    }
    assert(up.subset_of(range));
    lemma_len_subset(up, range);
    lemma_len_subset(up.insert(p), range);
}

/// What an indexer selects for a query are the tokens that the query attends to in the
/// whole sequence.
proof fn lemma_selection<H, K>(
    i: &Glm5NextTextIndexer,
    m: SparseMath<H, K>,
    whole: Seq<H>,
    qpos: int,
    batch: nat,
    scores: Seq<F32>,
    out: Seq<i64>,
    j: int,
)
    requires
        i.index_kpool > 0,
        0 <= qpos < whole.len(),
        whole.len() <= isize::MAX,
        batch > 0,
        j >= 0,
        ({
            let k = i.index_kpool as int;
            let keep = kept_pools(
                Seq::new(batch, |b: int| all_valid(whole.len())),
                whole.len() as int,
                k,
            );
            &&& scores.len() == keep.len()
            &&& forall|s: int|
                0 <= s < keep.len() ==> #[trigger] scores[s] == (m.score)(
                    whole[qpos],
                    pool_keys(m.keys_of(whole), k, keep[s] as int),
                )
            &&& i.selects(all_valid(whole.len()), keep, scores, qpos, true, out)
            &&& all_fit(i, whole.len()) || m.last_ranks_clearly(i, whole.take(qpos + 1))
        }),
    ensures
        picks(out, j) == m.last_attends(i, whole.take(qpos + 1), j),
        picks(out, j) ==> j <= qpos,
{
    let k = i.index_kpool as int;
    let len = whole.len() as int;
    let valid = all_valid(whole.len());
    let past = whole.take(qpos + 1);
    let cut = valid.take(qpos + 1);
    let keys = Seq::new(batch, |b: int| all_valid(whole.len()));
    let keep = kept_pools(keys, len, k);
    let score = m.last_scores(past, k);
    let want = (i.index_topk / i.index_kpool) as nat;
    assert(cut =~= all_valid((qpos + 1) as nat));
    assert(keys[0] == valid);
    assert(past.last() == whole[qpos]);
    lemma_kept(whole.len(), k, batch, qpos);
    assert(scored_by(valid, k, qpos, keep, scores, score)) by {
        assert forall|s: int|
            0 <= s < keep.len() && candidate(valid, k, keep[s] as int, qpos) implies #[trigger] scores[s]
            == score(keep[s] as int) by {
            let p = keep[s] as int;
            lemma_pools_of_valid(whole.len(), k, p, qpos);
            assert(pool_keys(m.keys_of(whole), k, p) =~= pool_keys(m.keys_of(past), k, p));
        }
    }
    lemma_ranking_ignores_later_tokens(valid, k, qpos, score, want);
    law_selects_best_pools_and_tail(i, valid, keep, scores, qpos, out, score, j);
    lemma_winners_ignore_later_tokens(valid, k, qpos, score, want, j);
    if picks(out, j) {
        let x = choose|x: int| 0 <= x < out.len() && #[trigger] out[x] == j;
        law_forward_is_causal(i, valid, keep, scores, qpos, true, out, x);
    }
}

/// Short contexts are settled: where all complete pools of the tokens fit in every selecting
/// layer, nothing depends on how pools rank.
pub proof fn law_short_contexts_are_settled<H, K, T, U, S, L>(
    model: Pass<H, K, T, U, S, L>,
    xs: Seq<H>,
    from: int,
)
    requires
        forall|l: int|
            0 <= l < model.layers.len() ==> ((#[trigger] model.layers[l]).self_attn matches Glm5NextSelfAttn::Sparse(
                a,
            ) ==> a.indexer matches Some(i) ==> all_fit(&i, xs.len())),
    ensures
        model.settled_from(xs, from),
{
}

/// A call behind `hist` gives, for its own positions, the rows and logits of the whole
/// sequence, and leaves the caches of the whole sequence, where it is settled which pools
/// are chosen at its positions: always while all complete pools fit, and beyond that
/// wherever no tie straddles the cut.
pub proof fn law_call_matches_the_whole_sequence<H, K, T, U, S, L>(
    model: Pass<H, K, T, U, S, L>,
    batch: nat,
    hist: Seq<u32>,
    ids: Seq<u32>,
    choices: Choices,
)
    requires
        model.wf(),
        batch > 0,
        ids.len() > 0,
        hist.len() + ids.len() <= isize::MAX,
        model.chooses(
            model.caches_at(model.embedded(hist)),
            hist.len(),
            model.embedded(ids),
            batch,
            choices,
        ),
        model.settled_from(model.embedded(hist + ids), hist.len() as int),
    ensures
        ({
            let all = model.embedded(hist + ids);
            let caches = model.caches_at(model.embedded(hist));
            &&& model.call_logits(caches, hist.len(), ids, choices) == model.logits_of(
                model.rows_at(all, model.layers.len()),
            ).skip(hist.len() as int)
            &&& model.call_leaves(caches, hist.len(), model.embedded(ids), choices)
                == model.caches_at(all)
        }),
{
    let a = model.embedded(hist);
    let b = model.embedded(ids);
    let all = model.embedded(hist + ids);
    let n = model.layers.len();
    assert(a + b =~= all);
    model.lemma_call(a, b, batch, choices, n);
    model.lemma_len(all, n);
    assert(model.call_logits(model.caches_at(a), hist.len(), ids, choices) =~= model.logits_of(
        model.rows_at(all, n),
    ).skip(hist.len() as int));
    assert(model.call_leaves(model.caches_at(a), hist.len(), b, choices) =~= model.caches_at(all));
}

/// A prefill and a second call, such as a decode step, give the logits of one call over all
/// the tokens, position by position, and leave the same caches. The three calls select on
/// their own. It must be settled which pools every selecting layer chooses: it is while all
/// complete pools of the tokens fit, and beyond that wherever no tie straddles the cut.
pub proof fn law_prefill_then_decode_matches_one_pass<H, K, T, U, S, L>(
    model: Pass<H, K, T, U, S, L>,
    batch: nat,
    first: Seq<u32>,
    second: Seq<u32>,
    prefill: Choices,
    decode: Choices,
    single: Choices,
)
    requires
        model.wf(),
        batch > 0,
        first.len() > 0,
        second.len() > 0,
        first.len() + second.len() <= isize::MAX,
        model.settled_from(model.embedded(first + second), 0),
        ({
            let fresh = model.caches_at(Seq::empty());
            let carried = model.call_leaves(fresh, 0, model.embedded(first), prefill);
            &&& model.chooses(fresh, 0, model.embedded(first), batch, prefill)
            &&& model.chooses(carried, first.len(), model.embedded(second), batch, decode)
            &&& model.chooses(fresh, 0, model.embedded(first + second), batch, single)
        }),
    ensures
        ({
            let fresh = model.caches_at(Seq::empty());
            let carried = model.call_leaves(fresh, 0, model.embedded(first), prefill);
            &&& model.call_logits(fresh, 0, first, prefill) + model.call_logits(
                carried,
                first.len(),
                second,
                decode,
            ) == model.call_logits(fresh, 0, first + second, single)
            &&& model.call_logits(carried, first.len(), second, decode).len() == second.len()
            &&& model.call_leaves(carried, first.len(), model.embedded(second), decode)
                == model.call_leaves(fresh, 0, model.embedded(first + second), single)
        }),
{
    let none = Seq::<u32>::empty();
    let both = first + second;
    let n = model.layers.len();
    let x = model.embedded(first);
    let all = model.embedded(both);
    assert(model.embedded(none) =~= Seq::<H>::empty());
    assert(none + first =~= first);
    assert(none + both =~= both);
    assert(x + model.embedded(second) =~= all);
    assert forall|l: int, p: int| 0 <= l < n && 0 <= p < x.len() implies #[trigger] model.settled_at(
        x,
        l,
        p,
    ) by {
        assert(model.settled_at(all, l, p));
        match model.layers[l].self_attn {
            Glm5NextSelfAttn::Sparse(a) if a.indexer is Some => {
                lemma_div_is_ordered(
                    x.len() as int,
                    all.len() as int,
                    a.indexer->Some_0.index_kpool as int,
                );
            },
            _ => {},
        }
        model.lemma_rows_of_prefix(x, model.embedded(second), l as nat);
        model.lemma_len(x, l as nat);
        model.lemma_len(all, l as nat);
        assert(model.rows_at(x, l as nat).take(p + 1) =~= model.rows_at(all, l as nat).take(p + 1));
    }
    law_call_matches_the_whole_sequence(model, batch, none, first, prefill);
    law_call_matches_the_whole_sequence(model, batch, first, second, decode);
    law_call_matches_the_whole_sequence(model, batch, none, both, single);
    model.lemma_rows_of_prefix(x, model.embedded(second), n);
    model.lemma_len(x, n);
    model.lemma_len(all, n);
    let fresh = model.caches_at(Seq::empty());
    let carried = model.call_leaves(fresh, 0, x, prefill);
    let a = model.call_logits(fresh, 0, first, prefill);
    let b = model.call_logits(carried, first.len(), second, decode);
    let c = model.call_logits(fresh, 0, both, single);
    let rows = model.logits_of(model.rows_at(all, n));
    assert(c =~= rows);
    assert(b =~= rows.skip(first.len() as int));
    assert(a =~= rows.take(first.len() as int));
    assert(a + b =~= c);
}

} // verus!
