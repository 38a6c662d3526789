//! Calls that change a cache, and what the next call finds.

use vstd::prelude::*;

use crate::cache::{
    holds_name, inserted, law_insert_keeps_the_most_recent, law_insert_within_budget, law_lookup,
    law_touch_only_moves, position, total_bytes, CachedTensor, LruCache, WeightCache,
};
use crate::deepseek_v4::quantized as named;
use crate::dtype::DType;
use crate::error::LmError;
use crate::float::F32;
use crate::glm5_next::attention::Glm5NextTextAttention;
use crate::glm5_next::indexer::{law_keys_accumulate, mask_fits, Glm5NextTextIndexer, PooledStates};
use crate::glm5_next::kda::{
    law_channels_are_split_evenly, law_conv_plan_parts, KdaLinearAttention, KdaPlan,
};
use crate::glm5_next::model::{
    Glm5NextDecoderLayer, Glm5NextSelfAttn, Glm5NextTextModel, LayerStart,
};
use crate::glm5_next::select::fit_width;
use crate::plan::WeightPart;
use crate::quantized_deepseek_v4::{DeepseekV4Quantized, LoadPlan, Lookup};

verus! {

/// What was cached is read back: a tensor within the budget that goes in under a name is what
/// the next look-up of the name gives. One over the budget is not kept, and leaves nothing
/// else either.
pub proof fn law_cached_tensors_are_read_back<T>(
    c: &mut LruCache<T>,
    d: &mut LruCache<T>,
    name: &str,
    t: CachedTensor<T>,
    dropped: usize,
    r: Option<&CachedTensor<T>>,
)
    requires
        old(c).wf(),
        call_ensures(LruCache::<T>::insert, (c, name, t), dropped),
        *old(d) == *final(c),
        call_ensures(LruCache::<T>::get, (d, name), r),
    ensures
        r is Some <==> t.bytes() <= old(c).budget(),
        r is Some ==> *r->Some_0 == t,
        t.bytes() > old(c).budget() ==> final(c)@.len() == 0,
        total_bytes(final(c)@) <= old(c).budget(),
        dropped + final(c)@.len() == old(c)@.len() + if holds_name(old(c)@, name@) {
            0int
        } else {
            1
        },
{
    old(c).lemma_within_budget();
    law_insert_keeps_the_most_recent(old(c)@, name@, t, old(c).budget());
    let rest = crate::cache::without(old(c)@, name@);
    assert(rest.len() == old(c)@.len() - if holds_name(old(c)@, name@) {
        1int
    } else {
        0
    });
}

/// A tensor that fits beside the others changes nothing for them: what another name gave, it
/// still gives, and nothing is dropped.
pub proof fn law_other_tensors_stay<T>(
    c: &mut LruCache<T>,
    name: &str,
    other: &str,
    t: CachedTensor<T>,
    dropped: usize,
    before: Option<&CachedTensor<T>>,
    after: Option<&CachedTensor<T>>,
)
    requires
        old(c).wf(),
        call_ensures(LruCache::<T>::peek, (old(c), other), before),
        call_ensures(LruCache::<T>::insert, (c, name, t), dropped),
        call_ensures(LruCache::<T>::peek, (final(c), other), after),
        total_bytes(old(c)@) + t.bytes() <= old(c).budget(),
        other@ != name@,
        before is Some,
    ensures
        after is Some,
        *after->Some_0 == *before->Some_0,
        dropped == 0,
{
    let entries = old(c)@;
    old(c).lemma_within_budget();
    let i = position(entries, other@);
    assert(entries[i].0 == other@);
    let p = if holds_name(entries, name@) {
        position(entries, name@)
    } else {
        entries.len() as int
    };
    law_insert_within_budget(entries, name@, t, old(c).budget(), p, i);
    law_insert_keeps_the_most_recent(entries, name@, t, old(c).budget());
    let then = inserted(entries, name@, t, old(c).budget());
    let j = if i < p {
        i
    } else {
        i - 1
    };
    assert(then[j] == entries[i]);
    law_lookup(then, other@, j);
}

/// A look-up only makes its tensor the newest: it keeps its bytes and every other tensor in
/// its order.
pub proof fn law_lookups_keep_the_rest<T>(
    c: &mut LruCache<T>,
    name: &str,
    r: Option<&CachedTensor<T>>,
    p: int,
    i: int,
)
    requires
        old(c).wf(),
        call_ensures(LruCache::<T>::get, (c, name), r),
        0 <= p < old(c)@.len(),
        old(c)@[p].0 == name@,
        0 <= i < old(c)@.len(),
    ensures
        r is Some,
        *r->Some_0 == old(c)@[p].1,
        final(c)@.len() == old(c)@.len(),
        final(c)@.last() == old(c)@[p],
        i < p ==> final(c)@[i] == old(c)@[i],
        i > p ==> final(c)@[i - 1] == old(c)@[i],
{
    old(c).lemma_within_budget();
    law_lookup(old(c)@, name@, p);
    law_touch_only_moves(old(c)@, name@, p, i);
}

/// Counting caches: what was cached is read back, and every tensor that had to go is counted.
pub proof fn law_evictions_are_counted<T>(
    c: &mut WeightCache<T>,
    d: &mut WeightCache<T>,
    name: &str,
    t: CachedTensor<T>,
    r: Option<&CachedTensor<T>>,
)
    requires
        old(c).wf(),
        call_ensures(WeightCache::<T>::insert, (c, name, t), ()),
        *old(d) == *final(c),
        call_ensures(WeightCache::<T>::get, (d, name), r),
    ensures
        r is Some <==> t.bytes() <= old(c).budget(),
        r is Some ==> *r->Some_0 == t,
        final(c).evicted() - old(c).evicted() + final(c)@.len() == old(c)@.len() + if holds_name(
            old(c)@,
            name@,
        ) {
            0int
        } else {
            1
        },
        total_bytes(final(c)@) <= old(c).budget(),
        final(d).evicted() == final(c).evicted(),
{
    old(c).lemma_within_budget();
    law_insert_keeps_the_most_recent(old(c)@, name@, t, old(c).budget());
}

/// A weight that was kept on the device is found there, and the offload cache is not looked at.
pub proof fn law_device_weights_are_found<T>(
    l: &mut DeepseekV4Quantized<T>,
    m: &mut DeepseekV4Quantized<T>,
    name: &str,
    t: CachedTensor<T>,
    dims: &[usize],
    r: Lookup<'_, T>,
)
    requires
        old(l).wf(),
        t.bytes() <= old(l).device_budget(),
        call_ensures(DeepseekV4Quantized::<T>::keep_on_device, (l, name, t), ()),
        *old(m) == *final(l),
        call_ensures(DeepseekV4Quantized::<T>::gpu_weight, (m, name, dims), r),
    ensures
        r matches Lookup::Device(found) && *found == t,
        final(m).offloaded() == old(l).offloaded(),
        total_bytes(final(l).on_device()) <= old(l).device_budget(),
{
    old(l).lemma_within_budget();
    law_insert_keeps_the_most_recent(old(l).on_device(), name@, t, old(l).device_budget());
}

/// A weight that was kept in the offload cache is found there, and is looked for on the device
/// first.
pub proof fn law_offloaded_weights_are_found<T>(
    l: &mut DeepseekV4Quantized<T>,
    m: &mut DeepseekV4Quantized<T>,
    n: &mut DeepseekV4Quantized<T>,
    name: &str,
    t: CachedTensor<T>,
    dims: &[usize],
    r: Result<&CachedTensor<T>, LoadPlan>,
    g: Lookup<'_, T>,
)
    requires
        old(l).wf(),
        t.bytes() <= old(l).offload_budget(),
        call_ensures(DeepseekV4Quantized::<T>::keep_offloaded, (l, name, t), ()),
        *old(m) == *final(l),
        call_ensures(DeepseekV4Quantized::<T>::load_weight, (m, name, dims), r),
        *old(n) == *final(l),
        call_ensures(DeepseekV4Quantized::<T>::gpu_weight, (n, name, dims), g),
    ensures
        r matches Ok(found) && *found == t,
        holds_name(old(l).on_device(), name@) ==> g is Device,
        !holds_name(old(l).on_device(), name@) ==> (g matches Lookup::Offloaded(found) && *found
            == t),
        final(m).on_device() == old(l).on_device(),
        total_bytes(final(l).offloaded()) <= old(l).offload_budget(),
{
    old(l).lemma_within_budget();
    law_insert_keeps_the_most_recent(old(l).offloaded(), name@, t, old(l).offload_budget());
}

/// A loader of plainly named tensors finds again what it kept.
pub proof fn law_kept_weights_are_found<T>(
    l: &mut named::DeepseekV4Quantized<T>,
    m: &mut named::DeepseekV4Quantized<T>,
    name: &str,
    t: CachedTensor<T>,
    dims: &[usize],
    r: Result<&CachedTensor<T>, WeightPart>,
)
    requires
        old(l).wf(),
        t.bytes() <= old(l).budget(),
        call_ensures(named::DeepseekV4Quantized::<T>::keep, (l, name, t), ()),
        *old(m) == *final(l),
        call_ensures(named::DeepseekV4Quantized::<T>::load_weight, (m, name, dims), r),
    ensures
        r matches Ok(found) && *found == t,
        total_bytes(final(l).entries()) <= old(l).budget(),
{
    old(l).lemma_within_budget();
    law_insert_keeps_the_most_recent(old(l).entries(), name@, t, old(l).budget());
}

/// An offload cache gives back what went in, within its budget.
pub proof fn law_offload_cache_reads_back<T>(
    c: &mut named::OffloadCache<T>,
    name: &str,
    t: CachedTensor<T>,
    r: Option<&CachedTensor<T>>,
)
    requires
        old(c).wf(),
        call_ensures(named::OffloadCache::<T>::insert, (c, name, t), ()),
        call_ensures(named::OffloadCache::<T>::get_cached, (final(c), name), r),
    ensures
        r is Some <==> t.bytes() <= old(c).budget(),
        r is Some ==> *r->Some_0 == t,
        total_bytes(final(c).entries()) <= old(c).budget(),
{
    old(c).lemma_within_budget();
    law_insert_keeps_the_most_recent(old(c).entries(), name@, t, old(c).budget());
}

/// Keys accumulate call by call: what was cached stays in front, and the new tokens come
/// behind, real where their mask value is above zero or where there is no mask. A call that
/// is refused changes nothing.
pub proof fn law_pushed_keys(
    i: &mut Glm5NextTextIndexer,
    batch: usize,
    seq: usize,
    mask: Option<&Vec<Vec<F32>>>,
    r: Result<(), LmError>,
    b: int,
    j: int,
)
    requires
        old(i).wf(),
        call_ensures(Glm5NextTextIndexer::push_keys, (i, batch, seq, mask), r),
        0 <= b < batch,
        0 <= j < seq,
    ensures
        r is Err ==> final(i).keys() == old(i).keys() && final(i).kv_len() == old(i).kv_len(),
        mask is None && old(i).keys() is None ==> r is Ok,
        r is Ok ==> final(i).kv_len() == old(i).kv_len() + seq,
        r is Ok ==> final(i).keys() is Some && final(i).keys()->Some_0.len() == batch,
        r is Ok && mask is None ==> final(i).keys()->Some_0[b][old(i).kv_len() + j],
        r is Ok && mask is Some ==> (final(i).keys()->Some_0[b][old(i).kv_len() + j] <==> !(
        mask->Some_0@[b]@[j].is_nan()) && mask->Some_0@[b]@[j].value() > 0),
        r is Ok && old(i).keys() is Some && j < old(i).kv_len() ==> final(i).keys()->Some_0[b][j]
            == old(i).keys()->Some_0[b][j],
        final(i).index_topk == old(i).index_topk && final(i).index_kpool == old(i).index_kpool,
{
    if r is Ok {
        law_keys_accumulate(old(i).keys(), batch as nat, seq as nat, mask, b, j);
        if old(i).keys() is Some {
            let c = old(i).cache->Some_0;
            assert(c.rows@[b]@.len() == c.len);
            assert(old(i).keys()->Some_0[b].len() == old(i).kv_len());
        }
    }
}

/// Tokens accumulate in a sparse layer: its cache and its indexer grow by the same tokens. A
/// batch of another size is refused and changes nothing, and so is a mask of another shape
/// where the layer runs an indexer.
pub proof fn law_pushed_tokens(
    a: &mut Glm5NextTextAttention,
    batch: usize,
    seq: usize,
    mask: Option<&Vec<Vec<F32>>>,
    r: Result<Option<PooledStates>, LmError>,
)
    requires
        old(a).wf(),
        old(a).kv_len() + seq <= usize::MAX,
        call_ensures(Glm5NextTextAttention::push_tokens, (a, batch, seq, mask), r),
    ensures
        r is Ok ==> final(a).kv_cache is Some && (final(a).kv_cache->Some_0).0 == batch
            && final(a).kv_len() == old(a).kv_len() + seq,
        r is Ok ==> (r->Ok_0 is Some <==> old(a).indexer is Some),
        r is Ok && old(a).indexer is Some ==> final(a).indexer->Some_0.kv_len()
            == final(a).kv_len(),
        r is Err ==> final(a).kv_cache == old(a).kv_cache,
        old(a).kv_cache is Some && (old(a).kv_cache->Some_0).0 != batch ==> r == Err::<
            Option<PooledStates>,
            LmError,
        >(LmError::BatchSize { have: (old(a).kv_cache->Some_0).0, got: batch }),
        old(a).kv_cache is None && (old(a).indexer is None || mask is None) ==> r is Ok,
        old(a).kv_cache is None && old(a).indexer is Some && !mask_fits(
            mask,
            batch as int,
            seq as int,
        ) ==> r == Err::<Option<PooledStates>, LmError>(LmError::MaskShape { batch, seq }),
        final(a).next_skip_topk == old(a).next_skip_topk,
        final(a).o_proj == old(a).o_proj,
{
}

/// A linear layer starts from zero once and continues from then on; its channels are split
/// evenly into queries, keys and values, in this order; and every call keeps the last columns
/// for the next.
pub proof fn law_linear_calls(
    a: &mut KdaLinearAttention,
    b: &mut KdaLinearAttention,
    n: usize,
    m: usize,
    first: KdaPlan,
    second: KdaPlan,
)
    requires
        old(a).wf(),
        !old(a).cached,
        n > 0,
        m > 0,
        n + old(a).conv_kernel <= usize::MAX,
        m + old(a).conv_kernel <= usize::MAX,
        call_ensures(KdaLinearAttention::forward, (a, n), first),
        *old(b) == *final(a),
        call_ensures(KdaLinearAttention::forward, (b, m), second),
    ensures
        !first.resume,
        second.resume,
        first.conv.cached == 0,
        second.conv.cached == old(a).conv_kernel - 1,
        first.conv.len == n && second.conv.len == m,
        first.conv.keep + old(a).conv_kernel - 1 == first.conv.zeros + n,
        second.conv.keep == m,
        first.q_start == 0,
        first.k_start == old(a).num_heads * old(a).head_dim,
        first.v_start - first.k_start == old(a).num_heads * old(a).head_dim,
        old(a).conv_dim - first.v_start == old(a).num_heads * old(a).head_dim,
        second.q_start == first.q_start && second.k_start == first.k_start && second.v_start
            == first.v_start,
        final(b).conv_kernel == old(a).conv_kernel && final(b).num_heads == old(a).num_heads,
{
    law_channels_are_split_evenly(old(a), first);
    law_conv_plan_parts(old(a).conv_kernel as int, false, n as int);
    law_conv_plan_parts(old(a).conv_kernel as int, true, m as int);
}

/// Clearing forgets: afterwards a layer, and the whole model, starts over, with nothing else
/// changed.
pub proof fn law_clearing(
    a: &mut Glm5NextTextAttention,
    k: &mut KdaLinearAttention,
    l: &mut Glm5NextDecoderLayer,
    m: &mut Glm5NextTextModel,
    i: int,
)
    requires
        old(a).wf(),
        call_ensures(Glm5NextTextAttention::clear_kv_cache, (a,), ()),
        call_ensures(KdaLinearAttention::clear_cache, (k,), ()),
        call_ensures(Glm5NextDecoderLayer::clear_kv_cache, (l,), ()),
        call_ensures(Glm5NextTextModel::clear_kv_cache, (m,), ()),
        0 <= i < old(m).layers@.len(),
    ensures
        final(a).kv_cache is None,
        final(a).indexer matches Some(x) ==> x.keys() is None && x.kv_len() == 0,
        final(a).indexer is Some <==> old(a).indexer is Some,
        final(a).o_proj == old(a).o_proj,
        !final(k).cached,
        final(k).conv_kernel == old(k).conv_kernel,
        final(l).is_fresh(),
        final(l).mlp == old(l).mlp,
        final(m).layers@.len() == old(m).layers@.len(),
        final(m).layers@[i].is_fresh(),
        final(m).layers@[i].same_settings(&old(m).layers@[i]),
{
}

/// Brought to a width, a row keeps its entries from the front and is filled with -1.
pub proof fn law_fitted_rows(row: &mut Vec<i64>, width: usize, x: int)
    requires
        call_ensures(fit_width, (row, width), ()),
        0 <= x < width,
    ensures
        final(row)@.len() == width,
        x < old(row)@.len() ==> final(row)@[x] == old(row)@[x],
        x >= old(row)@.len() ==> final(row)@[x] == -1,
{
}

/// A load gives the resident tensor without fetching, or what it fetched; afterwards the
/// tensor is there if it fits the budget. A fetch that fails changes nothing.
pub proof fn law_loads<T, E, F: FnOnce() -> Result<CachedTensor<T>, E>>(
    c: &mut named::OffloadCache<T>,
    name: &str,
    fetch: F,
    r: Result<named::Loaded<'_, T>, E>,
    p: int,
    after: Option<&CachedTensor<T>>,
)
    requires
        old(c).wf(),
        call_ensures(named::OffloadCache::<T>::load::<E, F>, (c, name, fetch), r),
        call_ensures(named::OffloadCache::<T>::get_cached, (final(c), name), after),
    ensures
        0 <= p < old(c).entries().len() && old(c).entries()[p].0 == name@ ==> r is Ok
            && r->Ok_0.tensor() == old(c).entries()[p].1,
        !holds_name(old(c).entries(), name@) && r is Ok ==> call_ensures(
            fetch,
            (),
            Ok::<CachedTensor<T>, E>(r->Ok_0.tensor()),
        ),
        r is Ok && !holds_name(old(c).entries(), name@) ==> (after is Some
            <==> r->Ok_0.tensor().bytes() <= old(c).budget()),
        r is Ok && after is Some ==> *after->Some_0 == r->Ok_0.tensor(),
        r is Err ==> final(c).entries() == old(c).entries(),
        final(c).budget() == old(c).budget(),
{
    old(c).lemma_within_budget();
    let entries = old(c).entries();
    if 0 <= p < entries.len() && entries[p].0 == name@ {
        law_lookup(entries, name@, p);
    }
    if holds_name(entries, name@) {
        let q = position(entries, name@);
        assert(entries[q].0 == name@);
        law_touch_only_moves(entries, name@, q, q);
        final(c).lemma_within_budget();
        let last = final(c).entries().len() - 1;
        assert(final(c).entries()[last].0 == name@);
        law_lookup(final(c).entries(), name@, last);
    } else if r is Ok {
        law_insert_keeps_the_most_recent(entries, name@, r->Ok_0.tensor(), old(c).budget());
    }
}

/// What the caches report of themselves.
pub proof fn law_cache_reports<T>(
    c: &LruCache<T>,
    w: &WeightCache<T>,
    o: &named::OffloadCache<T>,
    bytes: (usize, usize, usize),
    lens: (usize, usize, usize),
    empty: bool,
)
    requires
        call_ensures(LruCache::<T>::resident_bytes, (c,), bytes.0),
        call_ensures(WeightCache::<T>::resident_bytes, (w,), bytes.1),
        call_ensures(named::OffloadCache::<T>::current_bytes, (o,), bytes.2),
        call_ensures(LruCache::<T>::len, (c,), lens.0),
        call_ensures(WeightCache::<T>::len, (w,), lens.1),
        call_ensures(named::OffloadCache::<T>::len, (o,), lens.2),
        call_ensures(named::OffloadCache::<T>::is_empty, (o,), empty),
    ensures
        bytes.0 == total_bytes(c@) && bytes.0 <= c.budget(),
        bytes.1 == total_bytes(w@) && bytes.1 <= w.budget(),
        bytes.2 == total_bytes(o.entries()) && bytes.2 <= o.budget(),
        lens.0 == c@.len(),
        lens.1 == w@.len(),
        lens.2 == o.entries().len(),
        empty <==> lens.2 == 0,
{
}

/// A new loader holds nothing, knows the tensors it was given, reads fp8 in blocks of
/// 128 x 128, and keeps the two budgets apart.
pub proof fn law_new_loader<T>(
    names: Vec<String>,
    out_dtype: DType,
    max_bytes: usize,
    gpu_max_bytes: usize,
    l: DeepseekV4Quantized<T>,
    name: &str,
    there: bool,
    i: int,
)
    requires
        call_ensures(
            DeepseekV4Quantized::<T>::new_real,
            (names, out_dtype, max_bytes, gpu_max_bytes),
            l,
        ),
        call_ensures(DeepseekV4Quantized::<T>::contains, (&l, name), there),
        0 <= i < names@.len(),
    ensures
        l.offloaded().len() == 0 && l.on_device().len() == 0,
        l.offload_budget() == max_bytes,
        l.device_budget() == gpu_max_bytes,
        l.fp8_block().0 == 128 && l.fp8_block().1 == 128,
        l.float_dtype() == out_dtype,
        l.offload_evictions() == 0 && l.device_evictions() == 0,
        names@[i]@ == name@ ==> there,
        there ==> exists|x: int| 0 <= x < names@.len() && #[trigger] names@[x]@ == name@,
{
    if there {
        assert(crate::text::listed(names@, name@));
    }
    if names@[i]@ == name@ {
        assert(crate::text::listed(names@, name@));
    }
}

/// A layer takes tokens as its attention does: a linear one plans its next call, a sparse one
/// grows its caches and asks for scores where it runs an indexer.
pub proof fn law_layer_takes_tokens(
    l: &mut Glm5NextDecoderLayer,
    batch: usize,
    seq: usize,
    mask: Option<&Vec<Vec<F32>>>,
    r: Result<LayerStart, LmError>,
)
    requires
        old(l).wf(),
        call_ensures(Glm5NextDecoderLayer::push_tokens, (l, batch, seq, mask), r),
        seq > 0,
    ensures
        final(l).mlp == old(l).mlp,
        match (old(l).self_attn, final(l).self_attn) {
            (Glm5NextSelfAttn::Linear(a), Glm5NextSelfAttn::Linear(z)) => {
                &&& z.cached
                &&& r matches Ok(LayerStart::Linear(p)) && {
                    &&& p.resume == a.cached
                    &&& p.q_start == 0
                    &&& p.k_start == a.num_heads * a.head_dim
                    &&& p.v_start == p.k_start + p.k_start
                    &&& p.conv.len == seq || seq + a.conv_kernel > usize::MAX
                }
            },
            (Glm5NextSelfAttn::Sparse(a), Glm5NextSelfAttn::Sparse(z)) => {
                &&& r is Ok && a.kv_len() + seq <= usize::MAX ==> z.kv_len() == a.kv_len() + seq
                &&& r is Ok ==> (r->Ok_0 is Full <==> a.indexer is Some) && (r->Ok_0 is Shared
                    <==> a.indexer is None)
                &&& r is Err ==> z.kv_cache == a.kv_cache
                &&& a.kv_cache is Some && (a.kv_cache->Some_0).0 != batch ==> r == Err::<
                    LayerStart,
                    LmError,
                >(LmError::BatchSize { have: (a.kv_cache->Some_0).0, got: batch })
            },
            _ => false,
        },
{
    if let Glm5NextSelfAttn::Linear(a) = old(l).self_attn {
        let h = a.num_heads as int;
        let d = a.head_dim as int;
        assert(d * h == h * d) by (nonlinear_arith);
        if seq + a.conv_kernel <= usize::MAX {
            law_conv_plan_parts(a.conv_kernel as int, a.cached, seq as int);
        }
    }
}

/// What a loader reports of its two caches: sizes, lengths and evictions of the offload cache
/// and of the device cache, each of its own.
pub proof fn law_loader_reports<T>(
    l: &DeepseekV4Quantized<T>,
    bytes: (usize, usize),
    lens: (usize, usize),
    gone: (usize, usize),
)
    requires
        call_ensures(DeepseekV4Quantized::<T>::resident_bytes, (l,), bytes.0),
        call_ensures(DeepseekV4Quantized::<T>::gpu_resident_bytes, (l,), bytes.1),
        call_ensures(DeepseekV4Quantized::<T>::cached_len, (l,), lens.0),
        call_ensures(DeepseekV4Quantized::<T>::gpu_cached_len, (l,), lens.1),
        call_ensures(DeepseekV4Quantized::<T>::evictions, (l,), gone.0),
        call_ensures(DeepseekV4Quantized::<T>::gpu_evictions, (l,), gone.1),
    ensures
        bytes.0 == total_bytes(l.offloaded()) && bytes.0 <= l.offload_budget(),
        bytes.1 == total_bytes(l.on_device()) && bytes.1 <= l.device_budget(),
        lens.0 == l.offloaded().len(),
        lens.1 == l.on_device().len(),
        gone.0 == l.offload_evictions(),
        gone.1 == l.device_evictions(),
{
}

/// A new loader of plainly named tensors, and new caches: empty, with the budget they were
/// given.
pub proof fn law_new_caches<T>(
    names: Vec<String>,
    block: (usize, usize),
    suffix: &str,
    packed: Vec<String>,
    dtype: DType,
    max: usize,
    l: named::DeepseekV4Quantized<T>,
    c: LruCache<T>,
    w: WeightCache<T>,
    o: named::OffloadCache<T>,
)
    requires
        call_ensures(
            named::DeepseekV4Quantized::<T>::new,
            (names, block, suffix, packed, dtype, max),
            l,
        ),
        call_ensures(LruCache::<T>::new, (max,), c),
        call_ensures(WeightCache::<T>::new, (max,), w),
        call_ensures(named::OffloadCache::<T>::new, (max,), o),
    ensures
        l.entries().len() == 0 && l.budget() == max,
        l.scale_block() == block,
        l.suffix() == suffix@,
        l.float_dtype() == dtype,
        c@.len() == 0 && c.budget() == max,
        w@.len() == 0 && w.budget() == max && w.evicted() == 0,
        o.entries().len() == 0 && o.budget() == max,
{
}

} // verus!
