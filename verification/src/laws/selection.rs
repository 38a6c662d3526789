//! Visible tokens, pools of keys and the masks of a selection.

use vstd::prelude::*;

use crate::error::LmError;
use crate::float::F32;
use crate::glm5_next::attention::{
    law_mask_shows_the_selected, tokens, Attended, Glm5NextTextAttention, PoolScores, Selection,
};
use crate::glm5_next::indexer::{
    kept_pools, law_kept_pools, token_flag, Glm5NextTextIndexer, PooledStates,
};
use crate::glm5_next::model::{Glm5NextDecoderLayer, Glm5NextSelfAttn};
use crate::glm5_next::select::{
    count_visible, first_key, first_valid, is_positive, is_visible, law_first_valid,
    law_positive_values, law_visible_tokens_are_counted, pool_complete, pool_is_complete, pool_token,
};

verus! {

/// Query `q` of the last `q_length` sees a cached token exactly where the token is real and
/// stands at or before the query, the last query being the last token.
pub proof fn law_visible_tokens(
    indexer: &Glm5NextTextIndexer,
    q_length: usize,
    r: Vec<Vec<Vec<bool>>>,
    b: int,
    q: int,
    j: int,
)
    requires
        call_ensures(Glm5NextTextIndexer::get_visible_tokens, (indexer, q_length), r),
        indexer.wf(),
        indexer.keys() is Some,
        0 <= b < indexer.keys()->Some_0.len(),
        0 <= q < q_length,
        0 <= j < indexer.kv_len(),
    ensures
        r@.len() == indexer.keys()->Some_0.len(),
        r@[b]@.len() == q_length,
        r@[b]@[q]@.len() == indexer.kv_len(),
        r@[b]@[q]@[j] <==> indexer.keys()->Some_0[b][j] && indexer.kv_len() - j >= q_length - q,
{
    assert(indexer.keys()->Some_0[b].len() == indexer.kv_len()) by {
        let c = indexer.cache->Some_0;
        assert(c.rows@[b]@.len() == c.len);
    }
    assert(r@[b]@.len() == q_length);
    assert(r@[b]@[q]@.len() == indexer.kv_len());
}

/// The pools of the cached keys: every pool that some sequence fills with real tokens is
/// kept, in order, and for every sequence it is told where its first real token stands and
/// which of the kept pools it fills itself.
pub proof fn law_pooled_keys(
    indexer: &Glm5NextTextIndexer,
    r: PooledStates,
    b: int,
    s: int,
    u: int,
    j: int,
)
    requires
        indexer.wf(),
        indexer.keys() is Some,
        2 * indexer.kv_len() + indexer.index_kpool <= isize::MAX,
        call_ensures(Glm5NextTextIndexer::get_pooled_states, (indexer,), r),
        0 <= b < indexer.keys()->Some_0.len(),
        0 <= s < u < r.keep@.len(),
        0 <= j < indexer.kv_len(),
    ensures
        r.keep@[s] < r.keep@[u],
        r.first_keys@.len() == indexer.keys()->Some_0.len(),
        r.complete@.len() == indexer.keys()->Some_0.len(),
        j < r.first_keys@[b] ==> !indexer.keys()->Some_0[b][j],
        j == r.first_keys@[b] ==> indexer.keys()->Some_0[b][j],
        ({
            let row = indexer.keys()->Some_0[b];
            let start = r.first_keys@[b] + r.keep@[s] * indexer.index_kpool;
            r.complete@[b]@[s] <==> start + indexer.index_kpool <= row.len() && forall|x: int|
                start <= x < start + indexer.index_kpool ==> #[trigger] row[x]
        }),
{
    let keys = indexer.keys()->Some_0;
    let k = indexer.index_kpool as int;
    assert forall|a: int| 0 <= a < keys.len() implies (#[trigger] keys[a]).len()
        == indexer.kv_len() by {
        let c = indexer.cache->Some_0;
        assert(c.rows@[a]@.len() == c.len);
    }
    assert(indexer.pools_match(&r));
    law_kept_pools(keys, indexer.kv_len(), k, r.keep@[s] as int, b);
    assert(r.keep@ == kept_pools(keys, indexer.kv_len(), k));
    law_first_valid(keys[b], j);
    assert(r.first_keys@[b] == first_valid(keys[b]));
    assert(r.complete@[b]@.len() == r.keep@.len());
    assert(r.complete@[b]@[s] == pool_complete(keys[b], k, r.keep@[s] as int));
    let p = r.keep@[s] as int;
    lemma_pool_tokens(keys[b], k, p, r.first_keys@[b] + p * k);
}

proof fn lemma_pool_tokens(row: Seq<bool>, k: int, p: int, start: int)
    requires
        k > 0,
        start == first_valid(row) + p * k,
    ensures
        pool_complete(row, k, p) <==> start + k <= row.len() && forall|x: int|
            start <= x < start + k ==> #[trigger] row[x],
{
    if pool_complete(row, k, p) {
        assert(pool_token(row, k, p, k - 1) < row.len());
        assert forall|x: int| start <= x < start + k implies #[trigger] row[x] by {
            assert(pool_token(row, k, p, x - start) == x);
        }
    }
}

/// Single tokens and pools: the first real token, whether a token is seen, whether a pool is
/// full, and how many tokens a query sees.
pub proof fn law_tokens_and_pools(
    valid: &Vec<bool>,
    k: usize,
    p: usize,
    qpos: usize,
    j: usize,
    first: usize,
    seen: bool,
    full: bool,
    count: usize,
)
    requires
        k > 0,
        j < valid@.len(),
        call_ensures(first_key, (valid,), first),
        call_ensures(is_visible, (valid, qpos, j), seen),
        call_ensures(pool_is_complete, (valid, first, k, p), full),
        call_ensures(count_visible, (valid, qpos), count),
    ensures
        j < first ==> !valid@[j as int],
        j == first ==> valid@[j as int],
        seen <==> valid@[j as int] && j <= qpos,
        full && first + p * k <= j < first + p * k + k ==> valid@[j as int],
        full ==> first + p * k + k <= valid@.len(),
        count == Set::new(|x: int| 0 <= x < valid@.len() && x <= qpos && valid@[x]).len(),
{
    law_first_valid(valid@, j as int);
    law_visible_tokens_are_counted(valid@, qpos as int, valid@.len() as int);
    if full {
        let kk = k as int;
        let pp = p as int;
        assert(pool_token(valid@, kk, pp, kk - 1) < valid@.len());
        if first + p * k <= j < first + p * k + k {
            let t = j - (first + p * k);
            assert(pool_token(valid@, kk, pp, t) == j);
        }
    }
}

/// A mask value marks a real token exactly where it is a number above zero.
pub proof fn law_mask_values(v: F32, r: bool)
    requires
        call_ensures(is_positive, (v,), r),
    ensures
        r <==> !v.is_nan() && v.value() > 0,
{
    law_positive_values(v);
}

/// The masks of a selection: zero at exactly the selected tokens, negative infinity at the
/// others.
pub proof fn law_selection_masks(
    layer: &Glm5NextTextAttention,
    topk: &Selection,
    kv_len: usize,
    r: Vec<Vec<Vec<F32>>>,
    b: int,
    q: int,
    j: int,
)
    requires
        kv_len <= i64::MAX,
        call_ensures(
            Glm5NextTextAttention::build_attention_mask_from_topk,
            (layer, topk, kv_len),
            r,
        ),
        0 <= b < topk@.len(),
        0 <= q < topk@[b]@.len(),
        0 <= j < kv_len,
    ensures
        r@.len() == topk@.len(),
        r@[b]@.len() == topk@[b]@.len(),
        r@[b]@[q]@.len() == kv_len,
        topk@[b]@[q]@.contains(j as i64) ==> r@[b]@[q]@[j].bits == 0,
        !topk@[b]@[q]@.contains(j as i64) ==> r@[b]@[q]@[j].bits == 0xFF80_0000,
{
    let s = tokens(topk);
    assert(s[b].len() == topk@[b]@.len());
    assert(s[b][q] == topk@[b]@[q]@);
    law_mask_shows_the_selected(s, kv_len as int, r@, b, q, j);
}

/// A padding token selects nothing, and a selection is as wide as `index_topk` tokens and, where
/// the tail is always selected, a pool but one more.
pub proof fn law_selection_rows(
    indexer: &Glm5NextTextIndexer,
    seq: usize,
    mask: Option<&Vec<Vec<F32>>>,
    pooled: &PooledStates,
    scores: &Vec<Vec<Vec<F32>>>,
    r: Result<Vec<Vec<Vec<i64>>>, LmError>,
    b: int,
    q: int,
    x: int,
)
    requires
        call_ensures(Glm5NextTextIndexer::forward, (indexer, seq, mask, pooled, scores), r),
        indexer.index_kpool > 0,
        indexer.keys() is Some,
        0 <= b < indexer.keys()->Some_0.len(),
        0 <= q < seq,
        r is Ok,
        0 <= x < r->Ok_0@[b]@[q]@.len(),
    ensures
        r->Ok_0@.len() == indexer.keys()->Some_0.len(),
        r->Ok_0@[b]@.len() == seq,
        r->Ok_0@[b]@[q]@.len() == indexer.index_topk + (if indexer.always_select_tail {
            indexer.index_kpool - 1
        } else {
            0
        }),
        mask is Some && !(mask->Some_0@[b]@[q].value() > 0) ==> r->Ok_0@[b]@[q]@[x] == -1,
        r->Ok_0@[b]@[q]@[x] == -1 || (0 <= r->Ok_0@[b]@[q]@[x] <= indexer.kv_len() - seq + q
            && indexer.keys()->Some_0[b][r->Ok_0@[b]@[q]@[x] as int]),
{
    assert(r->Ok_0@[b]@.len() == seq);
    let row = r->Ok_0@[b]@[q]@;
    let valid = indexer.keys()->Some_0[b];
    let qpos = indexer.kv_len() - seq + q;
    let live = token_flag(mask, b, q);
    assert(indexer.selects(valid, pooled.keep@, scores@[b]@[q]@, qpos, live, row));
    crate::glm5_next::indexer::law_forward_is_causal(
        indexer,
        valid,
        pooled.keep@,
        scores@[b]@[q]@,
        qpos,
        live,
        row,
        x,
    );
    if mask is Some {
        law_positive_values(mask->Some_0@[b]@[q]);
    }
}

/// A layer that runs no indexer attends to what it is handed, and fails where nothing is
/// handed to it; every layer masks by the selection it attends to, and says whether the next
/// layer shares it.
pub proof fn law_shared_selections(
    layer: &Glm5NextTextAttention,
    seq: usize,
    mask: Option<&Vec<Vec<F32>>>,
    ranked: Option<&PoolScores>,
    prev: Option<&Selection>,
    r: Result<Attended, LmError>,
    b: int,
    q: int,
    j: int,
)
    requires
        call_ensures(Glm5NextTextAttention::forward, (layer, seq, mask, ranked, prev), r),
        layer.kv_len() <= i64::MAX,
        r is Ok ==> 0 <= b < r->Ok_0.topk@.len() && 0 <= q < r->Ok_0.topk@[b]@.len(),
        0 <= j < layer.kv_len(),
    ensures
        r is Err <==> layer.indexer is None && prev is None,
        r is Err ==> r == Err::<Attended, LmError>(LmError::NoSharedTopk),
        r is Ok ==> r->Ok_0.hand_on == layer.next_skip_topk,
        r is Ok && layer.indexer is None ==> r->Ok_0.topk@.len() == prev->Some_0@.len(),
        r is Ok && layer.indexer is None ==> r->Ok_0.topk@[b]@[q]@ == prev->Some_0@[b]@[q]@,
        r is Ok && r->Ok_0.topk@[b]@[q]@.contains(j as i64) ==> r->Ok_0.mask@[b]@[q]@[j].bits == 0,
        r is Ok && !r->Ok_0.topk@[b]@[q]@.contains(j as i64) ==> r->Ok_0.mask@[b]@[q]@[j].bits
            == 0xFF80_0000,
{
    if r is Ok {
        let s = tokens(&r->Ok_0.topk);
        assert(s[b].len() == r->Ok_0.topk@[b]@.len());
        assert(s[b][q] == r->Ok_0.topk@[b]@[q]@);
        law_mask_shows_the_selected(s, layer.kv_len(), r->Ok_0.mask@, b, q, j);
        if layer.indexer is None {
            let p = tokens(prev->Some_0);
            assert(p.len() == s.len());
            assert(p[b] == s[b]);
            assert(p[b][q] == prev->Some_0@[b]@[q]@);
        }
    }
}

/// A decoder layer attends as its attention does: a linear one to nothing in particular, a
/// sparse one to its selection.
pub proof fn law_layer_selections(
    layer: &Glm5NextDecoderLayer,
    seq: usize,
    mask: Option<&Vec<Vec<F32>>>,
    ranked: Option<&PoolScores>,
    prev: Option<&Selection>,
    r: Result<Option<Attended>, LmError>,
)
    requires
        call_ensures(Glm5NextDecoderLayer::forward, (layer, seq, mask, ranked, prev), r),
    ensures
        layer.self_attn is Linear ==> r is Ok && r->Ok_0 is None,
        layer.self_attn matches Glm5NextSelfAttn::Sparse(a) ==> {
            &&& r is Err <==> a.indexer is None && prev is None
            &&& r is Err ==> r == Err::<Option<Attended>, LmError>(LmError::NoSharedTopk)
            &&& r is Ok ==> r->Ok_0 is Some && (r->Ok_0->Some_0).hand_on == a.next_skip_topk
            &&& r is Ok && a.indexer is None ==> tokens(&(r->Ok_0->Some_0).topk) == tokens(
                prev->Some_0,
            )
        },
{
}

} // verus!
