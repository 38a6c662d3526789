//! The k-pool indexer: which cached tokens every query attends to.

use vstd::arithmetic::div_mod::lemma_fundamental_div_mod;
use vstd::prelude::*;

use super::select::{
    append_visible_tail, candidate, expand_pools, first_key, first_valid, fit_width, is_positive,
    is_visible, law_candidates_are_wholly_visible, law_positive_values,
    law_selected_tokens_are_visible, law_tail_behind_padding, lemma_first_from, pool_complete,
    pool_is_complete, pool_token, positive, selected_token, tail_token, visible,
};
use super::Glm5NextTextConfig;
use crate::error::LmError;
use crate::float::F32;
use crate::indices::{count_blocks, indices_where, law_indices_where};
use crate::topk::{is_topk, no_nan, order_key, topk_last_dim};

verus! {

/// Rows of flags as sequences.
pub open spec fn flag_rows(rows: Seq<Vec<bool>>) -> Seq<Seq<bool>> {
    Seq::new(rows.len(), |b: int| rows[b]@)
}

/// Token `q` of sequence `b` is a real token.
pub open spec fn token_flag(mask: Option<&Vec<Vec<F32>>>, b: int, q: int) -> bool {
    match mask {
        Some(m) => positive(m@[b]@[q]),
        None => true,
    }
}

/// The mask has `batch` rows of `seq` values.
pub open spec fn mask_fits(mask: Option<&Vec<Vec<F32>>>, batch: int, seq: int) -> bool {
    match mask {
        Some(m) => m@.len() == batch && forall|b: int|
            0 <= b < batch ==> (#[trigger] m@[b])@.len() == seq,
        None => true,
    }
}

/// The flags of every sequence after `seq` more tokens each.
pub open spec fn appended(
    keys: Option<Seq<Seq<bool>>>,
    batch: nat,
    seq: nat,
    mask: Option<&Vec<Vec<F32>>>,
) -> Seq<Seq<bool>> {
    Seq::new(
        batch,
        |b: int|
            (match keys {
                Some(rows) => rows[b],
                None => Seq::empty(),
            }) + Seq::new(seq, |q: int| token_flag(mask, b, q)),
    )
}

/// Pool `p` is complete in some sequence.
pub open spec fn complete_somewhere(keys: Seq<Seq<bool>>, k: int, p: int) -> bool {
    exists|b: int| 0 <= b < keys.len() && #[trigger] pool_complete(keys[b], k, p)
}

/// The pools that are complete in some sequence, in order.
pub open spec fn kept_pools(keys: Seq<Seq<bool>>, len: int, k: int) -> Seq<usize> {
    let n = (len + k - 1) / k;
    indices_where(
        Seq::new(n as nat, |p: int| complete_somewhere(keys, k, p)),
        n as nat,
    )
}

/// The validity of every cached key, sequence by sequence.
pub struct KeyCache {
    pub rows: Vec<Vec<bool>>,
    pub len: usize,
}

/// The pools of the cached keys.
pub struct PooledStates {
    /// First valid token of every sequence.
    pub first_keys: Vec<usize>,
    /// Pools that are complete in at least one sequence.
    pub keep: Vec<usize>,
    /// For every sequence, whether each kept pool is complete in it.
    pub complete: Vec<Vec<bool>>,
}

/// Scores with everything that is no candidate at negative infinity.
pub open spec fn masked_scores(
    valid: Seq<bool>,
    k: int,
    keep: Seq<usize>,
    scores: Seq<F32>,
    qpos: int,
) -> Seq<F32> {
    Seq::new(
        keep.len(),
        |s: int|
            if candidate(valid, k, keep[s] as int, qpos) {
                scores[s]
            } else {
                F32 { bits: 0xFF80_0000 }
            },
    )
}

/// The indexer of one sparse-attention layer, with the keys it has seen.
pub struct Glm5NextTextIndexer {
    pub num_heads: usize,
    pub head_dim: usize,
    pub index_topk: usize,
    pub index_kpool: usize,
    pub always_select_tail: bool,
    pub cache: Option<KeyCache>,
}

impl Glm5NextTextIndexer {
    /// The flags of the cached keys.
    pub open spec fn keys(&self) -> Option<Seq<Seq<bool>>> {
        match self.cache {
            Some(c) => Some(flag_rows(c.rows@)),
            None => None,
        }
    }

    /// Number of cached keys per sequence.
    pub open spec fn kv_len(&self) -> int {
        match self.cache {
            Some(c) => c.len as int,
            None => 0,
        }
    }

    /// Every cached sequence has the same length, and the pools are not empty.
    pub open spec fn wf(&self) -> bool {
        &&& self.index_kpool > 0
        &&& self.index_topk + self.index_kpool <= isize::MAX
        &&& match self.cache {
            Some(c) => forall|b: int| 0 <= b < c.rows@.len() ==> (#[trigger] c.rows@[b])@.len()
                == c.len,
            None => true,
        }
    }

    /// Nothing but the cache changes.
    pub open spec fn same_settings(&self, other: &Self) -> bool {
        &&& self.num_heads == other.num_heads
        &&& self.head_dim == other.head_dim
        &&& self.index_topk == other.index_topk
        &&& self.index_kpool == other.index_kpool
        &&& self.always_select_tail == other.always_select_tail
    }

    /// How many pools a query selects.
    pub open spec fn select_count(&self, kept: nat) -> nat {
        let want = (self.index_topk / self.index_kpool) as nat;
        if want <= kept {
            want
        } else {
            kept
        }
    }

    /// Width of a query's selection.
    pub open spec fn output_width(&self) -> int {
        self.index_topk + if self.always_select_tail {
            self.index_kpool - 1
        } else {
            0
        }
    }

    /// `out` is what a query at `qpos` selects: the pools of the highest scores
    /// among the candidates, expanded to tokens, and the tail; -1 fills the rest,
    /// and all of it for a padding token.
    pub open spec fn selects(
        &self,
        valid: Seq<bool>,
        keep: Seq<usize>,
        scores: Seq<F32>,
        qpos: int,
        live: bool,
        out: Seq<i64>,
    ) -> bool {
        let k = self.index_kpool as int;
        &&& out.len() == self.output_width()
        &&& !live ==> forall|x: int| 0 <= x < out.len() ==> #[trigger] out[x] == -1
        &&& live ==> exists|chosen: Seq<usize>|
            #[trigger] is_topk(
                masked_scores(valid, k, keep, scores, qpos),
                self.select_count(keep.len()),
                chosen,
            ) && forall|x: int|
                0 <= x < out.len() ==> #[trigger] out[x] == selected_token(
                    valid,
                    k,
                    keep,
                    chosen,
                    qpos,
                    self.always_select_tail,
                    x,
                )
    }

    /// An indexer with an empty cache.
    pub fn new(cfg: &Glm5NextTextConfig) -> (r: Self)
        requires
            cfg.index_kpool > 0,
            cfg.index_topk + cfg.index_kpool <= isize::MAX,
        ensures
            r.wf(),
            r.keys() is None,
            r.kv_len() == 0,
            r.num_heads == cfg.index_n_heads,
            r.head_dim == cfg.index_head_dim,
            r.index_topk == cfg.index_topk,
            r.index_kpool == cfg.index_kpool,
            r.always_select_tail == cfg.index_kpool_always_select_tail,
    {
        Glm5NextTextIndexer {
            num_heads: cfg.index_n_heads,
            head_dim: cfg.index_head_dim,
            index_topk: cfg.index_topk,
            index_kpool: cfg.index_kpool,
            always_select_tail: cfg.index_kpool_always_select_tail,
            cache: None,
        }
    }

    /// Forgets every cached key.
    pub fn clear_cache(&mut self)
        requires
            old(self).wf(),
        ensures
            final(self).wf(),
            final(self).same_settings(old(self)),
            final(self).keys() is None,
            final(self).kv_len() == 0,
    {
        self.cache = None;
    }

    /// Adds `seq` tokens to each of `batch` sequences, so that later queries select
    /// over the whole past. A token is real where its mask value is positive, or
    /// where there is no mask.
    pub fn push_keys(
        &mut self,
        batch: usize,
        seq: usize,
        mask: Option<&Vec<Vec<F32>>>,
    ) -> (r: Result<(), LmError>)
        requires
            old(self).wf(),
            old(self).kv_len() + seq <= usize::MAX,
        ensures
            final(self).wf(),
            final(self).same_settings(old(self)),
            !mask_fits(mask, batch as int, seq as int) ==> r == Err::<(), LmError>(
                LmError::MaskShape { batch, seq },
            ),
            mask_fits(mask, batch as int, seq as int) && old(self).keys() is Some && old(
                self,
            ).keys()->Some_0.len() != batch ==> r == Err::<(), LmError>(
                LmError::BatchSize { have: old(self).keys()->Some_0.len() as usize, got: batch },
            ),
            mask_fits(mask, batch as int, seq as int) && (old(self).keys() is None || old(
                self,
            ).keys()->Some_0.len() == batch) ==> r is Ok,
            r is Err ==> final(self).keys() == old(self).keys() && final(self).kv_len() == old(
                self,
            ).kv_len(),
            r is Ok ==> final(self).keys() == Some(
                appended(old(self).keys(), batch as nat, seq as nat, mask),
            ) && final(self).kv_len() == old(self).kv_len() + seq,
    {
        if !mask_has_shape(mask, batch, seq) {
            return Err(LmError::MaskShape { batch, seq });
        }
        let (have, len): (Option<usize>, usize) = match &self.cache {
            Some(c) => (Some(c.rows.len()), c.len),
            None => (None, 0),
        };
        match have {
            Some(h) => {
                if h != batch {
                    return Err(LmError::BatchSize { have: h, got: batch });
                }
            },
            None => {},
        }
        let ghost before = self.keys();
        let ghost want = appended(before, batch as nat, seq as nat, mask);
        let mut rows: Vec<Vec<bool>> = Vec::with_capacity(batch);
        let mut b: usize = 0;
        while b < batch
            invariant
                b <= batch,
                self.wf(),
                self.same_settings(old(self)),
                *self == *old(self),
                before == self.keys(),
                len == self.kv_len(),
                len + seq <= usize::MAX,
                mask_fits(mask, batch as int, seq as int),
                before is Some ==> before->Some_0.len() == batch,
                want == appended(before, batch as nat, seq as nat, mask),
                rows@.len() == b,
                forall|a: int| 0 <= a < b ==> (#[trigger] rows@[a])@ == want[a],
            decreases batch - b,
        {
            let mut row: Vec<bool> = match &self.cache {
                Some(c) => copy_flags(&c.rows[b]),
                None => Vec::new(),
            };
            let ghost start = row@;
            let mut q: usize = 0;
            while q < seq
                invariant
                    q <= seq,
                    b < batch,
                    mask_fits(mask, batch as int, seq as int),
                    row@ == start + Seq::new(q as nat, |x: int| token_flag(mask, b as int, x)),
                decreases seq - q,
            {
                let flag: bool = match mask {
                    Some(m) => is_positive(m[b][q]),
                    None => true,
                };
                row.push(flag);
                q = q + 1;
                proof {
                    assert(row@ =~= start + Seq::new(
                        q as nat,
                        |x: int| token_flag(mask, b as int, x),
                    ));
                }
            }
            proof {
                assert(row@ =~= want[b as int]);
            }
            rows.push(row);
            b = b + 1;
        }
        let ghost done = flag_rows(rows@);
        proof {
            assert(done =~= want);
            assert forall|a: int| 0 <= a < rows@.len() implies (#[trigger] rows@[a])@.len() == len
                + seq by {
                assert(rows@[a]@ == want[a]);
            }
        }
        self.cache = Some(KeyCache { rows, len: len + seq });
        Ok(())
    }

    /// For every sequence and query, which cached tokens are visible: real tokens at
    /// or before the query, whose position is counted from the end of the cache.
    pub fn get_visible_tokens(&self, q_length: usize) -> (r: Vec<Vec<Vec<bool>>>)
        requires
            self.wf(),
            self.keys() is Some,
            q_length <= self.kv_len(),
        ensures
            r@.len() == self.keys()->Some_0.len(),
            forall|b: int|
                0 <= b < r@.len() ==> (#[trigger] r@[b])@.len() == q_length && forall|q: int|
                    0 <= q < q_length ==> (#[trigger] r@[b]@[q])@.len() == self.kv_len()
                        && forall|j: int|
                        0 <= j < self.kv_len() ==> #[trigger] r@[b]@[q]@[j] == visible(
                            self.keys()->Some_0[b],
                            self.kv_len() - q_length + q,
                            j,
                        ),
    {
        let mut out: Vec<Vec<Vec<bool>>> = Vec::new();
        match &self.cache {
            Some(c) => {
                let mut b: usize = 0;
                while b < c.rows.len()
                    invariant
                        b <= c.rows@.len(),
                        self.wf(),
                        self.cache == Some(*c),
                        q_length <= c.len,
                        out@.len() == b,
                        forall|a: int|
                            0 <= a < b ==> (#[trigger] out@[a])@.len() == q_length && forall|q: int|
                                0 <= q < q_length ==> (#[trigger] out@[a]@[q])@.len() == c.len
                                    && forall|j: int|
                                    0 <= j < c.len ==> #[trigger] out@[a]@[q]@[j] == visible(
                                        c.rows@[a]@,
                                        c.len - q_length + q,
                                        j,
                                    ),
                    decreases c.rows@.len() - b,
                {
                    let mut per_query: Vec<Vec<bool>> = Vec::new();
                    let mut q: usize = 0;
                    while q < q_length
                        invariant
                            q <= q_length,
                            b < c.rows@.len(),
                            self.wf(),
                            self.cache == Some(*c),
                            q_length <= c.len,
                            per_query@.len() == q,
                            forall|x: int|
                                0 <= x < q ==> (#[trigger] per_query@[x])@.len() == c.len
                                    && forall|j: int|
                                    0 <= j < c.len ==> #[trigger] per_query@[x]@[j] == visible(
                                        c.rows@[b as int]@,
                                        c.len - q_length + x,
                                        j,
                                    ),
                        decreases q_length - q,
                    {
                        let qpos: usize = c.len - q_length + q;
                        let mut row: Vec<bool> = Vec::with_capacity(c.len);
                        let mut j: usize = 0;
                        while j < c.len
                            invariant
                                j <= c.len,
                                b < c.rows@.len(),
                                row@.len() == j,
                                forall|y: int|
                                    0 <= y < j ==> #[trigger] row@[y] == visible(
                                        c.rows@[b as int]@,
                                        qpos as int,
                                        y,
                                    ),
                            decreases c.len - j,
                        {
                            row.push(is_visible(&c.rows[b], qpos, j));
                            j = j + 1;
                        }
                        per_query.push(row);
                        q = q + 1;
                    }
                    out.push(per_query);
                    b = b + 1;
                }
            },
            None => {},
        }
        out
    }

    /// Groups the cached keys into pools of `index_kpool` tokens from each
    /// sequence's first valid token on, and keeps the pools that are complete in at
    /// least one sequence.
    pub fn get_pooled_states(&self) -> (r: PooledStates)
        requires
            self.wf(),
            self.keys() is Some,
            2 * self.kv_len() + self.index_kpool <= isize::MAX,
        ensures
            self.pools_match(&r),
    {
        let k: usize = self.index_kpool;
        let mut first_keys: Vec<usize> = Vec::new();
        let mut keep: Vec<usize> = Vec::new();
        let mut complete: Vec<Vec<bool>> = Vec::new();
        match &self.cache {
            Some(c) => {
                let ghost keys = flag_rows(c.rows@);
                let n: usize = count_blocks(c.len, k);
                let ghost flags = Seq::new(
                    n as nat,
                    |p: int| complete_somewhere(keys, k as int, p),
                );
                let mut b: usize = 0;
                while b < c.rows.len()
                    invariant
                        b <= c.rows@.len(),
                        first_keys@.len() == b,
                        forall|a: int|
                            0 <= a < b ==> #[trigger] first_keys@[a] == first_valid(c.rows@[a]@),
                    decreases c.rows@.len() - b,
                {
                    first_keys.push(first_key(&c.rows[b]));
                    b = b + 1;
                }
                let mut p: usize = 0;
                while p < n
                    invariant
                        p <= n,
                        self.wf(),
                        self.cache == Some(*c),
                        forall|a: int|
                            0 <= a < c.rows@.len() ==> (#[trigger] c.rows@[a])@.len() == c.len,
                        k == self.index_kpool,
                        n == (c.len + k - 1) / k as int,
                        2 * c.len + k <= isize::MAX,
                        keys == flag_rows(c.rows@),
                        flags == Seq::new(
                            n as nat,
                            |p: int| complete_somewhere(keys, k as int, p),
                        ),
                        first_keys@.len() == c.rows@.len(),
                        forall|a: int|
                            0 <= a < c.rows@.len() ==> #[trigger] first_keys@[a] == first_valid(
                                c.rows@[a]@,
                            ),
                        keep@ == indices_where(flags, p as nat),
                    decreases n - p,
                {
                    proof {
                        lemma_pool_start(c.len as int, k as int, p as int);
                    }
                    let mut any: bool = false;
                    let mut b: usize = 0;
                    while b < c.rows.len()
                        invariant
                            b <= c.rows@.len(),
                            p < n,
                            self.wf(),
                            self.cache == Some(*c),
                            forall|a: int|
                                0 <= a < c.rows@.len() ==> (#[trigger] c.rows@[a])@.len() == c.len,
                            k == self.index_kpool,
                            p * k <= c.len,
                            2 * c.len + k <= isize::MAX,
                            keys == flag_rows(c.rows@),
                            first_keys@.len() == c.rows@.len(),
                            forall|a: int|
                                0 <= a < c.rows@.len() ==> #[trigger] first_keys@[a]
                                    == first_valid(c.rows@[a]@),
                            any == exists|a: int|
                                0 <= a < b && #[trigger] pool_complete(
                                    keys[a],
                                    k as int,
                                    p as int,
                                ),
                        decreases c.rows@.len() - b,
                    {
                        proof {
                            lemma_first_from(c.rows@[b as int]@, 0);
                            assert(keys[b as int] == c.rows@[b as int]@);
                            assert(c.rows@[b as int]@.len() == c.len);
                            assert(first_keys@[b as int] == first_valid(c.rows@[b as int]@));
                        }
                        if pool_is_complete(&c.rows[b], first_keys[b], k, p) {
                            any = true;
                        }
                        b = b + 1;
                    }
                    proof {
                        assert(any == complete_somewhere(keys, k as int, p as int));
                        assert(flags[p as int] == any);
                    }
                    if any {
                        keep.push(p);
                    }
                    p = p + 1;
                }
                proof {
                    lemma_kept_bounds(flags, n as nat);
                }
                let mut b: usize = 0;
                while b < c.rows.len()
                    invariant
                        b <= c.rows@.len(),
                        self.wf(),
                        self.cache == Some(*c),
                        forall|a: int|
                            0 <= a < c.rows@.len() ==> (#[trigger] c.rows@[a])@.len() == c.len,
                        k == self.index_kpool,
                        n == (c.len + k - 1) / k as int,
                        2 * c.len + k <= isize::MAX,
                        first_keys@.len() == c.rows@.len(),
                        forall|a: int|
                            0 <= a < c.rows@.len() ==> #[trigger] first_keys@[a] == first_valid(
                                c.rows@[a]@,
                            ),
                        forall|s: int| 0 <= s < keep@.len() ==> #[trigger] keep@[s] < n,
                        complete@.len() == b,
                        forall|a: int|
                            0 <= a < b ==> (#[trigger] complete@[a])@.len() == keep@.len()
                                && forall|s: int|
                                0 <= s < keep@.len() ==> #[trigger] complete@[a]@[s]
                                    == pool_complete(c.rows@[a]@, k as int, keep@[s] as int),
                    decreases c.rows@.len() - b,
                {
                    let mut row: Vec<bool> = Vec::with_capacity(keep.len());
                    let mut s: usize = 0;
                    while s < keep.len()
                        invariant
                            s <= keep@.len(),
                            b < c.rows@.len(),
                            self.wf(),
                            self.cache == Some(*c),
                            forall|a: int|
                                0 <= a < c.rows@.len() ==> (#[trigger] c.rows@[a])@.len() == c.len,
                            k == self.index_kpool,
                            n == (c.len + k - 1) / k as int,
                            2 * c.len + k <= isize::MAX,
                            first_keys@.len() == c.rows@.len(),
                            forall|a: int|
                                0 <= a < c.rows@.len() ==> #[trigger] first_keys@[a]
                                    == first_valid(c.rows@[a]@),
                            forall|s: int| 0 <= s < keep@.len() ==> #[trigger] keep@[s] < n,
                            row@.len() == s,
                            forall|x: int|
                                0 <= x < s ==> #[trigger] row@[x] == pool_complete(
                                    c.rows@[b as int]@,
                                    k as int,
                                    keep@[x] as int,
                                ),
                        decreases keep@.len() - s,
                    {
                        proof {
                            lemma_pool_start(c.len as int, k as int, keep@[s as int] as int);
                            lemma_first_from(c.rows@[b as int]@, 0);
                            assert(c.rows@[b as int]@.len() == c.len);
                            assert(first_keys@[b as int] == first_valid(c.rows@[b as int]@));
                        }
                        row.push(pool_is_complete(&c.rows[b], first_keys[b], k, keep[s]));
                        s = s + 1;
                    }
                    complete.push(row);
                    b = b + 1;
                }
            },
            None => {},
        }
        PooledStates { first_keys, keep, complete }
    }

    /// `pooled` holds the pools of the cached keys.
    pub open spec fn pools_match(&self, pooled: &PooledStates) -> bool {
        let keys = self.keys()->Some_0;
        let k = self.index_kpool as int;
        &&& pooled.first_keys@.len() == keys.len()
        &&& pooled.complete@.len() == keys.len()
        &&& pooled.keep@ == kept_pools(keys, self.kv_len(), k)
        &&& forall|b: int|
            0 <= b < keys.len() ==> #[trigger] pooled.first_keys@[b] == first_valid(keys[b])
        &&& forall|b: int|
            0 <= b < keys.len() ==> (#[trigger] pooled.complete@[b])@.len() == pooled.keep@.len()
                && forall|s: int|
                0 <= s < pooled.keep@.len() ==> #[trigger] pooled.complete@[b]@[s]
                    == pool_complete(keys[b], k, pooled.keep@[s] as int)
    }

    /// Selects the tokens that every query of the last `seq` positions attends to.
    ///
    /// `scores[b][q][s]` is the score of kept pool `s` for query `q` of sequence `b`.
    /// Returns one row of token positions per query, -1 where nothing is selected.
    pub fn forward(
        &self,
        seq: usize,
        mask: Option<&Vec<Vec<F32>>>,
        pooled: &PooledStates,
        scores: &Vec<Vec<Vec<F32>>>,
    ) -> (r: Result<Vec<Vec<Vec<i64>>>, LmError>)
        requires
            self.wf(),
            self.keys() is Some,
            self.pools_match(pooled),
            seq <= self.kv_len(),
            2 * self.kv_len() + self.index_kpool <= isize::MAX,
            pooled.keep@.len() <= u32::MAX,
            mask_fits(mask, self.keys()->Some_0.len() as int, seq as int),
            self.scores_fit(seq as int, pooled.keep@, scores@),
        ensures
            r is Ok,
            r->Ok_0@.len() == self.keys()->Some_0.len(),
            forall|b: int|
                0 <= b < r->Ok_0@.len() ==> (#[trigger] r->Ok_0@[b])@.len() == seq && forall|q: int|
                    0 <= q < seq ==> self.selects(
                        self.keys()->Some_0[b],
                        pooled.keep@,
                        scores@[b]@[q]@,
                        self.kv_len() - seq + q,
                        token_flag(mask, b, q),
                        (#[trigger] r->Ok_0@[b]@[q])@,
                    ),
    {
        let mut out: Vec<Vec<Vec<i64>>> = Vec::new();
        match &self.cache {
            Some(c) => {
                let ghost keys = flag_rows(c.rows@);
                proof {
                    let n = ((c.len + self.index_kpool - 1) / self.index_kpool as int) as nat;
                    lemma_kept_bounds(
                        Seq::new(
                            n,
                            |p: int| complete_somewhere(keys, self.index_kpool as int, p),
                        ),
                        n,
                    );
                    assert forall|s: int| 0 <= s < pooled.keep@.len() implies (
                    #[trigger] pooled.keep@[s]) * self.index_kpool <= c.len by {
                        lemma_pool_start(
                            c.len as int,
                            self.index_kpool as int,
                            pooled.keep@[s] as int,
                        );
                    }
                }
                let mut b: usize = 0;
                while b < c.rows.len()
                    invariant
                        b <= c.rows@.len(),
                        self.wf(),
                        self.cache == Some(*c),
                        self.pools_match(pooled),
                        seq <= c.len,
                        2 * c.len + self.index_kpool <= isize::MAX,
                        pooled.keep@.len() <= u32::MAX,
                        keys == flag_rows(c.rows@),
                        keys == self.keys()->Some_0,
                        mask_fits(mask, keys.len() as int, seq as int),
                        self.scores_fit(seq as int, pooled.keep@, scores@),
                        forall|s: int|
                            0 <= s < pooled.keep@.len() ==> (#[trigger] pooled.keep@[s])
                                * self.index_kpool <= c.len,
                        out@.len() == b,
                        forall|a: int|
                            0 <= a < b ==> (#[trigger] out@[a])@.len() == seq && forall|q: int|
                                0 <= q < seq ==> self.selects(
                                    keys[a],
                                    pooled.keep@,
                                    scores@[a]@[q]@,
                                    c.len - seq + q,
                                    token_flag(mask, a, q),
                                    (#[trigger] out@[a]@[q])@,
                                ),
                    decreases c.rows@.len() - b,
                {
                    let mut per_query: Vec<Vec<i64>> = Vec::new();
                    let mut q: usize = 0;
                    while q < seq
                        invariant
                            q <= seq,
                            b < c.rows@.len(),
                            self.wf(),
                            self.cache == Some(*c),
                            self.pools_match(pooled),
                            seq <= c.len,
                            2 * c.len + self.index_kpool <= isize::MAX,
                            pooled.keep@.len() <= u32::MAX,
                            keys == flag_rows(c.rows@),
                            keys == self.keys()->Some_0,
                            mask_fits(mask, keys.len() as int, seq as int),
                            self.scores_fit(seq as int, pooled.keep@, scores@),
                            forall|s: int|
                                0 <= s < pooled.keep@.len() ==> (#[trigger] pooled.keep@[s])
                                    * self.index_kpool <= c.len,
                            per_query@.len() == q,
                            forall|x: int|
                                0 <= x < q ==> self.selects(
                                    keys[b as int],
                                    pooled.keep@,
                                    scores@[b as int]@[x]@,
                                    c.len - seq + x,
                                    token_flag(mask, b as int, x),
                                    (#[trigger] per_query@[x])@,
                                ),
                        decreases seq - q,
                    {
                        let qpos: usize = c.len - seq + q;
                        proof {
                            assert(self.row_fits(
                                keys[b as int],
                                pooled.keep@,
                                qpos as int,
                                scores@[b as int]@[q as int]@,
                            ));
                        }
                        let live: bool = match mask {
                            Some(m) => is_positive(m[b][q]),
                            None => true,
                        };
                        let row: Vec<i64> = match self.select_row(
                            &c.rows[b],
                            pooled.first_keys[b],
                            &pooled.keep,
                            &scores[b][q],
                            qpos,
                            live,
                        ) {
                            Ok(row) => row,
                            Err(e) => {
                                return Err(e);
                            },
                        };
                        per_query.push(row);
                        q = q + 1;
                    }
                    out.push(per_query);
                    b = b + 1;
                }
            },
            None => {},
        }
        Ok(out)
    }

    /// One query's scores: a number for every kept pool, and one that can be ranked
    /// for every candidate.
    pub open spec fn row_fits(
        &self,
        valid: Seq<bool>,
        keep: Seq<usize>,
        qpos: int,
        scores: Seq<F32>,
    ) -> bool {
        &&& scores.len() == keep.len()
        &&& no_nan(masked_scores(valid, self.index_kpool as int, keep, scores, qpos))
    }

    /// Scores for every sequence and query.
    pub open spec fn scores_fit(
        &self,
        seq: int,
        keep: Seq<usize>,
        scores: Seq<Vec<Vec<F32>>>,
    ) -> bool {
        let keys = self.keys()->Some_0;
        &&& scores.len() == keys.len()
        &&& forall|b: int|
            0 <= b < keys.len() ==> (#[trigger] scores[b])@.len() == seq && forall|q: int|
                0 <= q < seq ==> self.row_fits(
                    keys[b],
                    keep,
                    self.kv_len() - seq + q,
                    (#[trigger] scores[b]@[q])@,
                )
    }

    /// Selects the tokens of one query.
    fn select_row(
        &self,
        valid: &Vec<bool>,
        first: usize,
        keep: &Vec<usize>,
        scores: &Vec<F32>,
        qpos: usize,
        live: bool,
    ) -> (r: Result<Vec<i64>, LmError>)
        requires
            self.wf(),
            first == first_valid(valid@),
            2 * valid@.len() + self.index_kpool <= isize::MAX,
            keep@.len() <= u32::MAX,
            forall|s: int| 0 <= s < keep@.len() ==> (#[trigger] keep@[s]) * self.index_kpool
                <= valid@.len(),
            self.row_fits(valid@, keep@, qpos as int, scores@),
        ensures
            r is Ok,
            self.selects(valid@, keep@, scores@, qpos as int, live, r->Ok_0@),
    {
        let k: usize = self.index_kpool;
        let width: usize = if self.always_select_tail {
            self.index_topk + (k - 1)
        } else {
            self.index_topk
        };
        if !live {
            let mut row: Vec<i64> = Vec::new();
            fit_width(&mut row, width);
            return Ok(row);
        }
        let ghost masked = masked_scores(valid@, k as int, keep@, scores@, qpos as int);
        let mut ranked: Vec<F32> = Vec::with_capacity(keep.len());
        let mut s: usize = 0;
        proof {
            lemma_first_from(valid@, 0);
        }
        while s < keep.len()
            invariant
                s <= keep@.len(),
                k == self.index_kpool,
                k > 0,
                first == first_valid(valid@),
                first <= valid@.len(),
                2 * valid@.len() + k <= isize::MAX,
                scores@.len() == keep@.len(),
                masked == masked_scores(valid@, k as int, keep@, scores@, qpos as int),
                forall|s: int| 0 <= s < keep@.len() ==> (#[trigger] keep@[s]) * k <= valid@.len(),
                ranked@.len() == s,
                forall|x: int| 0 <= x < s ==> #[trigger] ranked@[x] == masked[x],
            decreases keep@.len() - s,
        {
            let p: usize = keep[s];
            proof {
                assert(keep@[s as int] * k <= valid@.len());
                assert(0 <= p * k) by (nonlinear_arith)
                    requires
                        p >= 0,
                        k >= 0,
                ;
                assert(pool_token(valid@, k as int, p as int, k - 1) == first + p * k + (k - 1));
            }
            let open: bool = pool_is_complete(valid, first, k, p) && is_visible(
                valid,
                qpos,
                first + p * k + (k - 1),
            );
            ranked.push(
                if open {
                    scores[s]
                } else {
                    F32 { bits: 0xFF80_0000 }
                },
            );
            s = s + 1;
        }
        proof {
            assert(ranked@ =~= masked);
        }
        let want: usize = self.index_topk / k;
        let select_k: usize = if want <= keep.len() {
            want
        } else {
            keep.len()
        };
        let chosen: Vec<usize> = match topk_last_dim(&ranked, select_k) {
            Ok(chosen) => chosen,
            Err(e) => {
                return Err(e);
            },
        };
        proof {
            lemma_fundamental_div_mod(self.index_topk as int, k as int);
            assert(chosen@.len() * k <= self.index_topk) by (nonlinear_arith)
                requires
                    chosen@.len() <= want,
                    self.index_topk == k * want + self.index_topk as int % k as int,
                    0 <= self.index_topk as int % k as int,
                    k > 0,
            ;
        }
        let mut row: Vec<i64> = expand_pools(valid, first, k, keep, &chosen, qpos);
        let ghost pools = row@;
        if self.always_select_tail {
            append_visible_tail(&mut row, valid, first, k, qpos);
        }
        let ghost whole = row@;
        fit_width(&mut row, width);
        proof {
            let tail = self.always_select_tail;
            assert(is_topk(masked, self.select_count(keep@.len()), chosen@));
            assert forall|x: int| 0 <= x < row@.len() implies #[trigger] row@[x] == selected_token(
                valid@,
                k as int,
                keep@,
                chosen@,
                qpos as int,
                tail,
                x,
            ) by {
                if x < pools.len() {
                    assert(whole[x] == pools[x]);
                    assert(pools[x] == selected_token(
                        valid@,
                        k as int,
                        keep@,
                        chosen@,
                        qpos as int,
                        false,
                        x,
                    ));
                } else if x < whole.len() {
                    assert(whole[x] == tail_token(
                        valid@,
                        k as int,
                        qpos as int,
                        x - pools.len(),
                    ));
                }
            }
        }
        Ok(row)
    }
}

/// Attention is causal and never reaches padding: every token that a query selects
/// is a valid token at or before it.
pub proof fn law_forward_is_causal(
    indexer: &Glm5NextTextIndexer,
    valid: Seq<bool>,
    keep: Seq<usize>,
    scores: Seq<F32>,
    qpos: int,
    live: bool,
    out: Seq<i64>,
    x: int,
)
    requires
        indexer.index_kpool > 0,
        indexer.selects(valid, keep, scores, qpos, live, out),
        0 <= x < out.len(),
    ensures
        out[x] == -1 || visible(valid, qpos, out[x] as int),
{
    if live {
        let k = indexer.index_kpool as int;
        let chosen = choose|chosen: Seq<usize>|
            #[trigger] is_topk(
                masked_scores(valid, k, keep, scores, qpos),
                indexer.select_count(keep.len()),
                chosen,
            ) && forall|x: int|
                0 <= x < out.len() ==> #[trigger] out[x] == selected_token(
                    valid,
                    k,
                    keep,
                    chosen,
                    qpos,
                    indexer.always_select_tail,
                    x,
                );
        law_selected_tokens_are_visible(
            valid,
            k,
            keep,
            chosen,
            qpos,
            indexer.always_select_tail,
            x,
        );
    }
}

/// A pool starts inside the cache.
proof fn lemma_pool_start(len: int, k: int, p: int)
    requires
        k > 0,
        len >= 0,
        0 <= p < (len + k - 1) / k,
    ensures
        0 <= p * k <= len,
{
    let n = (len + k - 1) / k;
    lemma_fundamental_div_mod(len + k - 1, k);
    assert(0 <= p * k <= len) by (nonlinear_arith)
        requires
            0 <= p < n,
            len + k - 1 == k * n + (len + k - 1) % k,
            0 <= (len + k - 1) % k,
            k > 0,
    ;
}

/// Listed positions lie below the bound.
pub proof fn lemma_kept_bounds(flags: Seq<bool>, upto: nat)
    requires
        upto <= flags.len(),
        upto <= usize::MAX,
    ensures
        forall|s: int|
            0 <= s < indices_where(flags, upto).len() ==> #[trigger] indices_where(flags, upto)[s]
                < upto,
        indices_where(flags, upto).len() <= upto,
    decreases upto,
{
    if upto > 0 {
        lemma_kept_bounds(flags, (upto - 1) as nat);
    }
}

/// Whether the mask has `batch` rows of `seq` values.
fn mask_has_shape(mask: Option<&Vec<Vec<F32>>>, batch: usize, seq: usize) -> (r: bool)
    ensures
        r == mask_fits(mask, batch as int, seq as int),
{
    match mask {
        Some(m) => {
            if m.len() != batch {
                return false;
            }
            let mut b: usize = 0;
            while b < batch
                invariant
                    b <= batch,
                    m@.len() == batch,
                    mask == Some(m),
                    forall|a: int| 0 <= a < b ==> (#[trigger] m@[a])@.len() == seq,
                decreases batch - b,
            {
                if m[b].len() != seq {
                    return false;
                }
                b = b + 1;
            }
            true
        },
        None => true,
    }
}

/// Copies flags.
fn copy_flags(v: &Vec<bool>) -> (r: Vec<bool>)
    ensures
        r@ == v@,
{
    let mut r: Vec<bool> = Vec::with_capacity(v.len());
    let mut i: usize = 0;
    while i < v.len()
        invariant
            i <= v@.len(),
            r@ == v@.take(i as int),
        decreases v@.len() - i,
    {
        r.push(v[i]);
        i = i + 1;
    }
    proof {
        assert(r@ =~= v@);
    }
    r
}

/// How many pools a query selects: as many as fit in `index_topk` tokens, or all that are
/// kept where there are fewer.
pub proof fn law_select_count(indexer: &Glm5NextTextIndexer, kept: nat)
    requires
        indexer.index_kpool > 0,
    ensures
        indexer.select_count(kept) <= kept,
        indexer.select_count(kept) * indexer.index_kpool <= indexer.index_topk,
        indexer.select_count(kept) == kept || (indexer.select_count(kept) + 1)
            * indexer.index_kpool > indexer.index_topk,
{
    let k = indexer.index_kpool as int;
    let want = indexer.index_topk as int / k;
    let n = indexer.select_count(kept) as int;
    lemma_fundamental_div_mod(indexer.index_topk as int, k);
    let r = indexer.index_topk as int % k;
    assert(n * k <= want * k && want * k == k * want) by (nonlinear_arith)
        requires
            n <= want,
            k > 0,
    ;
    assert((want + 1) * k == k * want + k) by (nonlinear_arith);
}

/// The chosen pools of a selection, with what follows from their order.
proof fn lemma_chosen(
    indexer: &Glm5NextTextIndexer,
    valid: Seq<bool>,
    keep: Seq<usize>,
    scores: Seq<F32>,
    qpos: int,
    out: Seq<i64>,
) -> (chosen: Seq<usize>)
    requires
        indexer.index_kpool > 0,
        indexer.selects(valid, keep, scores, qpos, true, out),
    ensures
        is_topk(
            masked_scores(valid, indexer.index_kpool as int, keep, scores, qpos),
            indexer.select_count(keep.len()),
            chosen,
        ),
        chosen.len() == indexer.select_count(keep.len()),
        chosen.len() * indexer.index_kpool <= out.len(),
        forall|x: int|
            0 <= x < out.len() ==> #[trigger] out[x] == selected_token(
                valid,
                indexer.index_kpool as int,
                keep,
                chosen,
                qpos,
                indexer.always_select_tail,
                x,
            ),
{
    let k = indexer.index_kpool as int;
    law_select_count(indexer, keep.len());
    choose|chosen: Seq<usize>|
        #[trigger] is_topk(
            masked_scores(valid, k, keep, scores, qpos),
            indexer.select_count(keep.len()),
            chosen,
        ) && forall|x: int|
            0 <= x < out.len() ==> #[trigger] out[x] == selected_token(
                valid,
                k,
                keep,
                chosen,
                qpos,
                indexer.always_select_tail,
                x,
            )
}

/// The tokens of chosen pool `i` stand in a selection one behind the other.
proof fn lemma_chosen_tokens(
    valid: Seq<bool>,
    k: int,
    keep: Seq<usize>,
    chosen: Seq<usize>,
    qpos: int,
    tail: bool,
    i: int,
    t: int,
)
    requires
        k > 0,
        0 <= i < chosen.len(),
        0 <= t < k,
    ensures
        0 <= i * k + t < chosen.len() * k,
        selected_token(valid, k, keep, chosen, qpos, tail, i * k + t) == (if candidate(
            valid,
            k,
            keep[chosen[i] as int] as int,
            qpos,
        ) {
            first_valid(valid) + keep[chosen[i] as int] * k + t
        } else {
            -1
        }),
{
    assert(0 <= i * k && i * k + k <= chosen.len() * k) by (nonlinear_arith)
        requires
            0 <= i < chosen.len(),
            k > 0,
    ;
    vstd::arithmetic::div_mod::lemma_fundamental_div_mod_converse(i * k + t, k, i, t);
}

/// Better pools go first: where the tokens of a pool are selected, so are those of every
/// candidate that scores higher. Candidates are the kept pools whose tokens are all real
/// and at or before the query; `s` and `u` are two of them, told apart by their numbers.
pub proof fn law_better_pools_are_selected_first(
    indexer: &Glm5NextTextIndexer,
    valid: Seq<bool>,
    keep: Seq<usize>,
    scores: Seq<F32>,
    qpos: int,
    out: Seq<i64>,
    s: int,
    u: int,
    x: int,
)
    requires
        indexer.index_kpool > 0,
        keep.len() <= usize::MAX,
        scores.len() == keep.len(),
        indexer.selects(valid, keep, scores, qpos, true, out),
        forall|a: int, b: int| 0 <= a < b < keep.len() ==> #[trigger] keep[a] < #[trigger] keep[b],
        0 <= s < keep.len(),
        0 <= u < keep.len(),
        forall|t: int|
            0 <= t < indexer.index_kpool ==> visible(
                valid,
                qpos,
                #[trigger] pool_token(valid, indexer.index_kpool as int, keep[s] as int, t),
            ),
        order_key(scores[s]) > order_key(scores[u]),
        0 <= x < indexer.select_count(keep.len()) * indexer.index_kpool,
        out[x] == first_valid(valid) + keep[u] * indexer.index_kpool,
    ensures
        exists|y: int|
            0 <= y < out.len() && #[trigger] out[y] == first_valid(valid) + keep[s]
                * indexer.index_kpool,
{
    let k = indexer.index_kpool as int;
    let chosen = lemma_chosen(indexer, valid, keep, scores, qpos, out);
    let masked = masked_scores(valid, k, keep, scores, qpos);
    law_candidates_are_wholly_visible(valid, k, keep[s] as int, qpos);
    lemma_first_from(valid, 0);
    lemma_fundamental_div_mod(x, k);
    let i = x / k;
    let t = x % k;
    let n = chosen.len() as int;
    assert(0 <= i < n) by (nonlinear_arith)
        requires
            x == k * i + t,
            0 <= t < k,
            0 <= x < n * k,
            k > 0,
    ;
    assert(i * k == k * i) by (nonlinear_arith);
    lemma_chosen_tokens(valid, k, keep, chosen, qpos, indexer.always_select_tail, i, t);
    let c = chosen[i] as int;
    assert(chosen[i] < masked.len());
    let pc = keep[c] as int;
    let pu = keep[u] as int;
    assert(0 <= pu * k) by (nonlinear_arith)
        requires
            pu >= 0,
            k > 0,
    ;
    assert(pc == pu) by (nonlinear_arith)
        requires
            pc * k + t == pu * k,
            0 <= t < k,
            k > 0,
    ;
    if c < u {
        assert(keep[c] < keep[u]);
    } else if u < c {
        assert(keep[u] < keep[c]);
    }
    assert(c == u);
    if !chosen.contains(s as usize) {
        assert(order_key(masked[s]) <= order_key(masked[chosen[i] as int]));
        assert(masked[s] == scores[s] && masked[u] == scores[u]);
    }
    let z = choose|z: int| 0 <= z < chosen.len() && chosen[z] == s as usize;
    lemma_chosen_tokens(valid, k, keep, chosen, qpos, indexer.always_select_tail, z, 0);
    assert(out[z * k + 0] == first_valid(valid) + keep[s] * k);
}

/// A candidate is left out only where the selection is full: unless it scores negative
/// infinity, every place for a pool then holds a token.
pub proof fn law_pools_are_left_out_only_when_full(
    indexer: &Glm5NextTextIndexer,
    valid: Seq<bool>,
    keep: Seq<usize>,
    scores: Seq<F32>,
    qpos: int,
    out: Seq<i64>,
    s: int,
    x: int,
)
    requires
        indexer.index_kpool > 0,
        keep.len() <= usize::MAX,
        scores.len() == keep.len(),
        indexer.selects(valid, keep, scores, qpos, true, out),
        0 <= s < keep.len(),
        forall|t: int|
            0 <= t < indexer.index_kpool ==> visible(
                valid,
                qpos,
                #[trigger] pool_token(valid, indexer.index_kpool as int, keep[s] as int, t),
            ),
        order_key(scores[s]) > -0x7F80_0000,
        forall|y: int|
            0 <= y < out.len() ==> #[trigger] out[y] != first_valid(valid) + keep[s]
                * indexer.index_kpool,
        0 <= x < indexer.select_count(keep.len()) * indexer.index_kpool,
    ensures
        (indexer.select_count(keep.len()) + 1) * indexer.index_kpool > indexer.index_topk,
        out[x] >= 0,
{
    let k = indexer.index_kpool as int;
    let chosen = lemma_chosen(indexer, valid, keep, scores, qpos, out);
    let masked = masked_scores(valid, k, keep, scores, qpos);
    law_candidates_are_wholly_visible(valid, k, keep[s] as int, qpos);
    law_select_count(indexer, keep.len());
    lemma_first_from(valid, 0);
    if chosen.contains(s as usize) {
        let z = choose|z: int| 0 <= z < chosen.len() && chosen[z] == s as usize;
        lemma_chosen_tokens(valid, k, keep, chosen, qpos, indexer.always_select_tail, z, 0);
        assert(out[z * k + 0] == first_valid(valid) + keep[s] * k);
    }
    if indexer.select_count(keep.len()) == keep.len() {
        super::decode::lemma_all_chosen(keep.len(), chosen, s);
    }
    lemma_fundamental_div_mod(x, k);
    let i = x / k;
    let t = x % k;
    let n = chosen.len() as int;
    assert(0 <= i < n) by (nonlinear_arith)
        requires
            x == k * i + t,
            0 <= t < k,
            0 <= x < n * k,
            k > 0,
    ;
    assert(i * k == k * i) by (nonlinear_arith);
    lemma_chosen_tokens(valid, k, keep, chosen, qpos, indexer.always_select_tail, i, t);
    assert(chosen[i] < masked.len());
    assert(order_key(masked[s]) <= order_key(masked[chosen[i] as int]));
    let low = F32 { bits: 0xFF80_0000 };
    assert(order_key(low) == -0x7F80_0000);
    assert(candidate(valid, k, keep[chosen[i] as int] as int, qpos));
    let p = keep[chosen[i] as int] as int;
    assert(0 <= p * k) by (nonlinear_arith)
        requires
            p >= 0,
            k > 0,
    ;
}

/// Pools are selected whole: place `i` for a pool holds either nothing or `k` tokens that
/// follow each other from the start of a kept pool.
pub proof fn law_pools_are_selected_whole(
    indexer: &Glm5NextTextIndexer,
    valid: Seq<bool>,
    keep: Seq<usize>,
    scores: Seq<F32>,
    qpos: int,
    out: Seq<i64>,
    i: int,
    t: int,
)
    requires
        indexer.index_kpool > 0,
        indexer.selects(valid, keep, scores, qpos, true, out),
        0 <= i < indexer.select_count(keep.len()),
        0 <= t < indexer.index_kpool,
    ensures
        out.len() == indexer.index_topk + (if indexer.always_select_tail {
            indexer.index_kpool - 1
        } else {
            0
        }),
        ({
            let k = indexer.index_kpool as int;
            let start = out[i * k];
            &&& start == -1 ==> out[i * k + t] == -1
            &&& start != -1 ==> out[i * k + t] == start + t && exists|s: int|
                0 <= s < keep.len() && start == first_valid(valid) + #[trigger] keep[s] * k
        }),
{
    let k = indexer.index_kpool as int;
    let chosen = lemma_chosen(indexer, valid, keep, scores, qpos, out);
    let masked = masked_scores(valid, k, keep, scores, qpos);
    let tail = indexer.always_select_tail;
    lemma_chosen_tokens(valid, k, keep, chosen, qpos, tail, i, 0);
    lemma_chosen_tokens(valid, k, keep, chosen, qpos, tail, i, t);
    assert(out[i * k] == selected_token(valid, k, keep, chosen, qpos, tail, i * k));
    assert(out[i * k + t] == selected_token(valid, k, keep, chosen, qpos, tail, i * k + t));
    let s = chosen[i] as int;
    assert(chosen[i] < masked.len());
    let p = keep[s] as int;
    lemma_first_from(valid, 0);
    assert(0 <= p * k) by (nonlinear_arith)
        requires
            p >= 0,
            k > 0,
    ;
    assert(out[i * k] != -1 ==> out[i * k] == first_valid(valid) + keep[s] * k);
}

/// A query always selects its latest tokens: behind the pools come the tokens that fill no
/// whole pool yet, up to the query itself. The sequence may be padded in front of `first`.
pub proof fn law_latest_tokens_are_selected(
    indexer: &Glm5NextTextIndexer,
    valid: Seq<bool>,
    keep: Seq<usize>,
    scores: Seq<F32>,
    qpos: int,
    out: Seq<i64>,
    first: int,
    j: int,
)
    requires
        indexer.index_kpool > 0,
        indexer.always_select_tail,
        indexer.selects(valid, keep, scores, qpos, true, out),
        0 <= first <= qpos < valid.len() <= i64::MAX,
        forall|i: int| 0 <= i < valid.len() ==> (#[trigger] valid[i] <==> i >= first),
        first + ((qpos + 1 - first) / indexer.index_kpool as int) * indexer.index_kpool <= j
            <= qpos,
    ensures
        out.contains(j as i64),
{
    let k = indexer.index_kpool as int;
    let chosen = lemma_chosen(indexer, valid, keep, scores, qpos, out);
    law_tail_behind_padding(valid, k, first, qpos, j);
    law_select_count(indexer, keep.len());
    let off = j - first - ((qpos + 1 - first) / k) * k;
    let x = chosen.len() * k + off;
    assert(0 <= chosen.len() * k) by (nonlinear_arith)
        requires
            k > 0,
    ;
    assert(out[x] == selected_token(valid, k, keep, chosen, qpos, true, x));
    assert(out[x] == j);
    assert(out[x] == j as i64);
}

/// A padding token selects nothing.
pub proof fn law_padding_selects_nothing(
    indexer: &Glm5NextTextIndexer,
    valid: Seq<bool>,
    keep: Seq<usize>,
    scores: Seq<F32>,
    qpos: int,
    out: Seq<i64>,
    x: int,
)
    requires
        indexer.selects(valid, keep, scores, qpos, false, out),
        0 <= x < out.len(),
    ensures
        out[x] == -1,
{
}

/// Keys accumulate: what was cached stays in front, and every new token is real where its
/// mask value is a number above zero, or where there is no mask.
pub proof fn law_keys_accumulate(
    keys: Option<Seq<Seq<bool>>>,
    batch: nat,
    seq: nat,
    mask: Option<&Vec<Vec<F32>>>,
    b: int,
    j: int,
)
    requires
        0 <= b < batch,
        keys is Some ==> keys->Some_0.len() == batch,
        0 <= j,
    ensures
        appended(keys, batch, seq, mask).len() == batch,
        ({
            let old = match keys {
                Some(rows) => rows[b],
                None => Seq::empty(),
            };
            let row = appended(keys, batch, seq, mask)[b];
            &&& row.len() == old.len() + seq
            &&& j < old.len() ==> row[j] == old[j]
            &&& j < seq && mask is None ==> row[old.len() + j]
            &&& j < seq && mask is Some ==> row[old.len() + j] == (!mask->Some_0@[b]@[j].is_nan()
                && mask->Some_0@[b]@[j].value() > 0)
        }),
{
    if mask is Some {
        law_positive_values(mask->Some_0@[b]@[j]);
    }
}

/// The kept pools are those that some sequence fills with real tokens, in order and each
/// once.
pub proof fn law_kept_pools(keys: Seq<Seq<bool>>, len: int, k: int, p: int, b: int)
    requires
        k > 0,
        0 <= len,
        len + k <= usize::MAX,
        forall|a: int| 0 <= a < keys.len() ==> (#[trigger] keys[a]).len() == len,
        0 <= p,
        0 <= b < keys.len(),
    ensures
        (forall|t: int| 0 <= t < k ==> {
            &&& #[trigger] pool_token(keys[b], k, p, t) < len
            &&& keys[b][pool_token(keys[b], k, p, t)]
        }) ==> kept_pools(keys, len, k).contains(p as usize),
        p <= usize::MAX && kept_pools(keys, len, k).contains(p as usize) ==> exists|a: int|
            0 <= a < keys.len() && #[trigger] pool_complete(keys[a], k, p),
        forall|x: int, y: int|
            0 <= x < y < kept_pools(keys, len, k).len() ==> #[trigger] kept_pools(keys, len, k)[x]
                < #[trigger] kept_pools(keys, len, k)[y],
{
    let n = ((len + k - 1) / k) as nat;
    let flags = Seq::new(n, |q: int| complete_somewhere(keys, k, q));
    let kept = kept_pools(keys, len, k);
    lemma_fundamental_div_mod(len + k - 1, k);
    let g = (len + k - 1) / k;
    let r = (len + k - 1) % k;
    assert(0 <= g <= len + k - 1) by (nonlinear_arith)
        requires
            len + k - 1 == k * g + r,
            0 <= r < k,
            0 <= len,
            k > 0,
    ;
    law_indices_where(flags, n);
    if forall|t: int| 0 <= t < k ==> {
        &&& #[trigger] pool_token(keys[b], k, p, t) < len
        &&& keys[b][pool_token(keys[b], k, p, t)]
    } {
        assert(pool_complete(keys[b], k, p));
        assert(complete_somewhere(keys, k, p));
        lemma_first_from(keys[b], 0);
        assert(pool_token(keys[b], k, p, k - 1) < len);
        assert(p < g) by (nonlinear_arith)
            requires
                p * k + k - 1 < len,
                len + k - 1 == k * g + r,
                0 <= r < k,
                k > 0,
        ;
        assert(flags[p]);
    }
    if p <= usize::MAX && kept.contains(p as usize) {
        let x = choose|x: int| 0 <= x < kept.len() && kept[x] == p as usize;
        assert(flags[kept[x] as int]);
    }
}

} // verus!
