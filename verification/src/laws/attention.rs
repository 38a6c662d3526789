//! Masks, pages, routing and the choice of the largest scores.

use vstd::arithmetic::div_mod::{lemma_fundamental_div_mod, lemma_mod_bound};
use vstd::prelude::*;

use crate::blocks::lemma_row_col;
use crate::error::LmError;
use crate::flash_attn::{
    attended_columns, block_is_skipped, build_hetero_mask, build_indexer_mask, hides, is_skipped,
    law_attended_columns, law_compressed_entries_appear_when_full, law_pages_fit_the_tokens,
    law_selected_blocks_are_attended_whole, law_sequences_lie_back_to_back,
    law_skipped_blocks_are_counted, law_skipped_blocks_hold_nothing,
    law_table_is_as_wide_as_needed, mask_row, most_pages, paged_layout, pages_before, pages_of,
    skipped_blocks, skipped_count, tokens_before, PagedLayout,
};
use crate::float::F32;
use crate::glm5_next::router::{
    law_routing_stays_in_groups, masked_experts, Glm5NextTopkRouter,
};
use crate::topk::{is_topk, no_nan, order_key, topk_last_dim};

verus! {

/// The entry of query `q` and local key `j` is zero where `j` is one of the last `window`
/// tokens up to the query, and negative infinity elsewhere.
pub proof fn law_local_mask_entries(
    sq: usize,
    local_len: usize,
    compressed_len: usize,
    window: usize,
    rate: usize,
    r: Vec<F32>,
    q: int,
    j: int,
)
    requires
        rate > 0,
        call_ensures(build_hetero_mask, (sq, local_len, compressed_len, window, rate), r),
        0 <= q < sq,
        0 <= j < local_len,
    ensures
        r@.len() == sq * (local_len + compressed_len),
        ({
            let p = q * (local_len + compressed_len) + j;
            &&& r@[p].bits == 0 <==> j <= q && q - j < window
            &&& r@[p].bits == 0xFF80_0000 <==> !(j <= q && q - j < window)
        }),
{
    lemma_row_col(q, j, sq as int, local_len + compressed_len);
}

/// The entry of query `q` and compressed key `c` is zero where the last of the `rate` tokens
/// that the key stands for is at or before the query, and negative infinity elsewhere.
pub proof fn law_compressed_mask_entries(
    sq: usize,
    local_len: usize,
    compressed_len: usize,
    window: usize,
    rate: usize,
    r: Vec<F32>,
    q: int,
    c: int,
)
    requires
        rate > 0,
        call_ensures(build_hetero_mask, (sq, local_len, compressed_len, window, rate), r),
        0 <= q < sq,
        0 <= c < compressed_len,
    ensures
        ({
            let p = q * (local_len + compressed_len) + local_len + c;
            &&& r@[p].bits == 0 <==> c * rate + (rate - 1) <= q
            &&& r@[p].bits == 0xFF80_0000 <==> c * rate + (rate - 1) > q
        }),
{
    lemma_row_col(q, local_len + c, sq as int, local_len + compressed_len);
    law_compressed_entries_appear_when_full(
        q,
        c,
        local_len as int,
        window as int,
        rate as int,
    );
}

/// Where queries select blocks, the local keys are masked by the window as before, and the
/// `rate` compressed keys of block `block` are open to exactly the queries that selected it.
pub proof fn law_selected_mask_entries(
    local_len: usize,
    compressed_len: usize,
    window: usize,
    rate: usize,
    selected: &Vec<Vec<usize>>,
    r: Vec<F32>,
    q: int,
    j: int,
    block: usize,
    t: int,
)
    requires
        rate > 0,
        call_ensures(build_indexer_mask, (local_len, compressed_len, window, rate, selected), r),
        0 <= q < selected@.len(),
        0 <= j < local_len,
        0 <= t < rate,
        block * rate + t < compressed_len,
    ensures
        r@.len() == selected@.len() * (local_len + compressed_len),
        ({
            let row = q * (local_len + compressed_len);
            let key = local_len + block * rate + t;
            &&& r@[row + j].bits == 0 <==> j <= q && q - j < window
            &&& r@[row + j].bits == 0xFF80_0000 <==> !(j <= q && q - j < window)
            &&& r@[row + key].bits == 0 <==> selected@[q]@.contains(block)
            &&& r@[row + key].bits == 0xFF80_0000 <==> !selected@[q]@.contains(block)
        }),
{
    let skv = local_len + compressed_len;
    assert(0 <= block * rate) by (nonlinear_arith)
        requires
            block >= 0,
            rate >= 0,
    ;
    lemma_row_col(q, j, selected@.len() as int, skv);
    let key = local_len + block * rate + t;
    lemma_row_col(q, key, selected@.len() as int, skv);
    law_selected_blocks_are_attended_whole(
        q,
        block,
        t,
        local_len as int,
        window as int,
        rate as int,
        selected@[q]@,
    );
    assert(r@[q * skv + j].bits == 0 || r@[q * skv + j].bits == 0xFF80_0000);
    assert(r@[q * skv + key].bits == 0 || r@[q * skv + key].bits == 0xFF80_0000);
}

/// A decoding query attends to the last `window` cached tokens: its mask is the last row of
/// the mask that a prefill over the same tokens has.
pub proof fn law_decoding_mask_row(
    kv_len: usize,
    window: usize,
    rate: usize,
    row: Vec<F32>,
    prefill: Vec<F32>,
    j: int,
)
    requires
        rate > 0,
        call_ensures(mask_row, (kv_len, window), row),
        call_ensures(build_hetero_mask, (kv_len, kv_len, 0, window, rate), prefill),
        0 <= j < kv_len,
    ensures
        row@.len() == kv_len,
        row@[j].bits == 0 <==> j >= kv_len - window,
        row@[j] == prefill@[(kv_len - 1) * kv_len + j],
{
    lemma_row_col(kv_len - 1, j, kv_len as int, kv_len as int);
    assert((kv_len - 1) * (kv_len + 0) == (kv_len - 1) * kv_len);
}

/// A block is reported as skipped exactly where every one of its 64 columns is masked.
pub proof fn law_skipping(mask: &[F32], block: usize, r: bool, c: int)
    requires
        block * 64 <= mask@.len(),
        call_ensures(block_is_skipped, (mask, block), r),
        64 * block <= c < 64 * block + 64,
        c < mask@.len(),
    ensures
        mask@[c].is_finite() ==> !r,
        (forall|x: int| 64 * block <= x < 64 * block + 64 && x < mask@.len() ==> !(
        #[trigger] mask@[x]).is_finite()) ==> r,
{
    law_skipped_blocks_hold_nothing(mask@, block as int, c);
}

/// Every column that a query attends to is among the attended ones, which are listed in
/// increasing order; a column that is listed lies in a block with a column that the query
/// attends to.
pub proof fn law_attended_columns_hold_the_visible(mask: &[F32], r: Vec<usize>, c: int)
    requires
        call_ensures(attended_columns, (mask,), r),
        mask@.len() <= usize::MAX,
        0 <= c < mask@.len(),
    ensures
        mask@[c].is_finite() ==> r@.contains(c as usize),
        r@.contains(c as usize) ==> exists|x: int|
            0 <= x < mask@.len() && x / 64 == c / 64 && (#[trigger] mask@[x]).is_finite(),
        forall|a: int, b: int| 0 <= a < b < r@.len() ==> #[trigger] r@[a] < #[trigger] r@[b],
{
    law_attended_columns(mask@, c);
    if r@.contains(c as usize) {
        assert(!is_skipped(mask@, c / 64));
        let x = choose|x: int|
            0 <= x < mask@.len() && x / 64 == c / 64 && !hides(
                #[trigger] mask@[x],
            );
        assert(mask@[x].is_finite());
    }
}

/// The blocks of a mask and the skipped ones are counted.
pub proof fn law_skipped_counts(mask: &[F32], r: (usize, usize))
    requires
        call_ensures(skipped_blocks, (mask,), r),
    ensures
        mask@.len() <= 64 * r.1 < mask@.len() + 64,
        r.0 <= r.1,
        r.0 == Set::new(
            |b: int| 0 <= b < r.1 && is_skipped(mask@, b),
        ).len(),
{
    law_skipped_blocks_are_counted(mask@, r.1 as int);
    lemma_count_bound(mask@, r.1 as int);
}

proof fn lemma_count_bound(mask: Seq<F32>, upto: int)
    requires
        0 <= upto,
    ensures
        0 <= skipped_count(mask, upto) <= upto,
    decreases upto,
{
    if upto > 0 {
        lemma_count_bound(mask, upto - 1);
    }
}

/// Where a token lies: the table names a page for every token of a sequence, the pages of a
/// sequence follow each other, those of the next sequence come behind them, the rest of a
/// row is filled with -1, and the offsets grow by the lengths.
pub proof fn law_paged_tokens(
    kv_lens: &Vec<usize>,
    page: usize,
    r: PagedLayout,
    b: int,
    j: int,
    p: int,
)
    requires
        page > 0,
        pages_before(kv_lens@, page as int, kv_lens@.len() as int) <= i32::MAX,
        call_ensures(paged_layout, (kv_lens, page), r),
        0 <= b < kv_lens@.len(),
        0 <= j < kv_lens@[b],
        0 <= p < r.block_table@[b]@.len(),
    ensures
        r.block_table@.len() == kv_lens@.len(),
        r.cu_seqlens@.len() == kv_lens@.len() + 1,
        r.cu_seqlens@[0] == 0,
        r.cu_seqlens@[b + 1] - r.cu_seqlens@[b] == kv_lens@[b],
        (j / page as int) < r.block_table@[b]@.len(),
        r.block_table@[b]@[j / page as int] >= 0,
        r.block_table@[b]@[j / page as int] == r.block_table@[b]@[0] + j / page as int,
        r.block_table@[0]@.len() > 0 && kv_lens@[0] > 0 ==> r.block_table@[0]@[0] == 0,
        p * page >= kv_lens@[b] ==> r.block_table@[b]@[p] == -1,
        p * page < kv_lens@[b] ==> r.block_table@[b]@[p] >= 0,
        b + 1 < kv_lens@.len() && kv_lens@[b + 1] > 0 ==> (r.block_table@[b + 1]@[0]
            - r.block_table@[b]@[0] - 1) * page < kv_lens@[b],
        b + 1 < kv_lens@.len() && kv_lens@[b + 1] > 0 ==> kv_lens@[b] <= (r.block_table@[b + 1]@[0]
            - r.block_table@[b]@[0]) * page,
        b + 1 == kv_lens@.len() ==> kv_lens@[b] <= (r.num_blocks - r.block_table@[b]@[0]) * page,
        b + 1 == kv_lens@.len() ==> (r.num_blocks - r.block_table@[b]@[0] - 1) * page < kv_lens@[b],
{
    let g = page as int;
    let n = kv_lens@.len() as int;
    let len = kv_lens@[b] as int;
    law_pages_fit_the_tokens(len, g);
    law_sequences_lie_back_to_back(kv_lens@, g, b);
    law_table_is_as_wide_as_needed(kv_lens@, g, n);
    let pages = pages_of(len, g);
    let widest = most_pages(kv_lens@, g, n);
    assert(pages <= widest) by {
        assert(kv_lens@[b] == len);
    }
    lemma_fundamental_div_mod(j, g);
    lemma_mod_bound(j, g);
    let t = j / g;
    let d = j % g;
    assert(0 <= t < pages) by (nonlinear_arith)
        requires
            j == g * t + d,
            0 <= d < g,
            0 <= j < len,
            len <= pages * g,
    ;
    lemma_before_grow(kv_lens@, g, b);
    let first = pages_before(kv_lens@, g, b);
    assert(r.block_table@[b]@.len() == widest);
    assert(r.block_table@[b]@[t] == first + t);
    assert(r.block_table@[b]@[0] == first + 0);
    if kv_lens@[0] > 0 && r.block_table@[0]@.len() > 0 {
        law_pages_fit_the_tokens(kv_lens@[0] as int, g);
        let z = pages_of(kv_lens@[0] as int, g);
        assert(z > 0) by (nonlinear_arith)
            requires
                kv_lens@[0] as int <= z * g,
                kv_lens@[0] > 0,
                g > 0,
        ;
        assert(r.block_table@[0]@[0] == pages_before(kv_lens@, g, 0) + 0);
    }
    if p * g >= len {
        assert(p >= pages) by (nonlinear_arith)
            requires
                p * g >= len,
                pages * g < len + g,
                g > 0,
        ;
    } else {
        assert(p < pages) by (nonlinear_arith)
            requires
                p * g < len,
                len <= pages * g,
                g > 0,
        ;
    }
    assert(r.block_table@[b]@[p] == if p < pages {
        first + p
    } else {
        -1
    });
    let after = pages_before(kv_lens@, g, b + 1);
    assert((after - first - 1) * g == (after - first) * g - g) by (nonlinear_arith);
    if b + 1 < n && kv_lens@[b + 1] > 0 {
        law_pages_fit_the_tokens(kv_lens@[b + 1] as int, g);
        let z = pages_of(kv_lens@[b + 1] as int, g);
        assert(z > 0) by (nonlinear_arith)
            requires
                kv_lens@[b + 1] as int <= z * g,
                kv_lens@[b + 1] > 0,
                g > 0,
        ;
        assert(r.block_table@[b + 1]@.len() == widest);
        assert(z <= widest) by {
            assert(kv_lens@[b + 1] > 0);
        }
        assert(r.block_table@[b + 1]@[0] == after + 0);
    }
    assert(r.cu_seqlens@[b + 1] == tokens_before(kv_lens@, b + 1));
    assert(r.cu_seqlens@[b] == tokens_before(kv_lens@, b));
}

proof fn lemma_before_grow(kv_lens: Seq<usize>, page: int, b: int)
    requires
        page > 0,
        0 <= b <= kv_lens.len(),
    ensures
        pages_before(kv_lens, page, b) >= 0,
    decreases b,
{
    if b > 0 {
        lemma_before_grow(kv_lens, page, b - 1);
        let len = kv_lens[b - 1] as int;
        law_pages_fit_the_tokens(len, page);
        let z = pages_of(len, page);
        assert(z >= 0) by (nonlinear_arith)
            requires
                len <= z * page,
                len >= 0,
                page > 0,
        ;
    }
}

/// The largest `k` scores: as many positions as asked for, all different, each holding a
/// number that no position left out exceeds, in falling order. Asking for more than there
/// are fails.
pub proof fn law_topk(
    scores: &Vec<F32>,
    k: usize,
    r: Result<Vec<usize>, LmError>,
    i: int,
    j: int,
    a: int,
)
    requires
        no_nan(scores@),
        call_ensures(topk_last_dim, (scores, k), r),
        0 <= a < scores@.len(),
    ensures
        r is Ok <==> k <= scores@.len(),
        r is Err ==> r == Err::<Vec<usize>, LmError>(
            LmError::TopkWidth { k, len: scores@.len() as usize },
        ),
        r is Ok ==> r->Ok_0@.len() == k,
        r is Ok && 0 <= i < k ==> r->Ok_0@[i] < scores@.len(),
        r is Ok && 0 <= i < j < k ==> r->Ok_0@[i] != r->Ok_0@[j] && order_key(
            scores@[r->Ok_0@[i] as int],
        ) >= order_key(scores@[r->Ok_0@[j] as int]),
        r is Ok && 0 <= i < k && !r->Ok_0@.contains(a as usize) ==> order_key(scores@[a])
            <= order_key(scores@[r->Ok_0@[i] as int]),
{
    if r is Ok && 0 <= i < k {
        let chosen = r->Ok_0@;
        assert(is_topk(scores@, k as nat, chosen));
        assert(chosen[i] < scores@.len());
        if !chosen.contains(a as usize) {
            assert(order_key(scores@[a]) <= order_key(scores@[chosen[i] as int]));
        }
        if i < j < k {
            assert(chosen[i] != chosen[j]);
            assert(order_key(scores@[chosen[i] as int]) >= order_key(scores@[chosen[j] as int]));
        }
    }
}

/// Routing with a single group, or with every group chosen, takes the `top_k` experts of the
/// highest scores: no expert left out scores higher than one that is taken.
pub proof fn law_ungrouped_routing(
    router: &Glm5NextTopkRouter,
    scores: &Vec<F32>,
    group_scores: &Vec<F32>,
    r: Result<Vec<usize>, LmError>,
    e: int,
    i: int,
    j: int,
)
    requires
        call_ensures(Glm5NextTopkRouter::forward, (router, scores, group_scores), r),
        router.topk_group == router.num_group,
        scores@.len() == router.num_experts,
        r is Ok,
        0 <= e < router.num_experts,
        0 <= i < j < router.top_k,
    ensures
        r->Ok_0@.len() == router.top_k,
        r->Ok_0@[i] < router.num_experts,
        r->Ok_0@[i] != r->Ok_0@[j],
        order_key(scores@[r->Ok_0@[i] as int]) >= order_key(scores@[r->Ok_0@[j] as int]),
        !r->Ok_0@.contains(e as usize) ==> order_key(scores@[e]) <= order_key(
            scores@[r->Ok_0@[j] as int],
        ),
{
    let chosen = r->Ok_0@;
    assert(is_topk(scores@, router.top_k as nat, chosen));
    assert(chosen[i] < scores@.len() && chosen[j] < scores@.len());
    if !chosen.contains(e as usize) {
        assert(order_key(scores@[e]) <= order_key(scores@[chosen[j] as int]));
    }
}

/// Routing with groups: of two experts of one group, the one that scores higher is taken
/// before the other.
pub proof fn law_routing_within_a_group(
    router: &Glm5NextTopkRouter,
    scores: &Vec<F32>,
    group_scores: &Vec<F32>,
    r: Result<Vec<usize>, LmError>,
    a: int,
    b: int,
)
    requires
        call_ensures(Glm5NextTopkRouter::forward, (router, scores, group_scores), r),
        router.num_group > 0,
        scores@.len() == router.num_experts,
        group_scores@.len() == router.num_group,
        no_nan(scores@),
        r is Ok,
        router.num_experts > 0,
        router.num_experts as int % router.num_group as int == 0,
        0 <= a < router.num_experts,
        0 <= b < router.num_experts,
        a / (router.num_experts as int / router.num_group as int) == b / (router.num_experts as int
            / router.num_group as int),
        order_key(scores@[a]) > order_key(scores@[b]),
        router.top_k <= router.topk_group * (router.num_experts as int / router.num_group as int),
        forall|e: int|
            0 <= e < router.num_experts ==> order_key(#[trigger] scores@[e]) > -0x7F80_0000,
        r->Ok_0@.contains(b as usize),
    ensures
        r->Ok_0@.contains(a as usize),
{
    let chosen = r->Ok_0@;
    let per = router.per_group();
    let groups = choose|groups: Seq<usize>| #[trigger]
        is_topk(group_scores@, router.topk_group as nat, groups) && is_topk(
            masked_experts(scores@, per, groups),
            router.top_k as nat,
            chosen,
        );
    let masked = masked_experts(scores@, per, groups);
    let x = choose|x: int| 0 <= x < chosen.len() && chosen[x] == b as usize;
    lemma_fundamental_div_mod(router.num_experts as int, router.num_group as int);
    let n = router.num_group as int;
    assert(per * n == n * per) by (nonlinear_arith);
    assert(per > 0) by (nonlinear_arith)
        requires
            router.num_experts as int == n * per,
            router.num_experts > 0,
            n > 0,
    ;
    assert forall|g: int| 0 <= g < groups.len() implies #[trigger] groups[g] < router.num_group by {
        assert(groups[g] < group_scores@.len());
    }
    law_routing_stays_in_groups(router, scores@, groups, chosen, x);
    assert(groups.contains((b / per) as usize));
    if !chosen.contains(a as usize) {
        assert(order_key(masked[a]) <= order_key(masked[chosen[x] as int]));
    }
}

/// The pairs that group scores are summed from: for every group two of its own experts, the
/// best and the second best.
pub proof fn law_group_pairs(
    router: &Glm5NextTopkRouter,
    scores: &Vec<F32>,
    r: Result<Vec<(usize, usize)>, LmError>,
    e: int,
)
    requires
        router.num_group > 0,
        call_ensures(Glm5NextTopkRouter::group_tops, (router, scores), r),
        r is Ok,
        0 <= e < router.num_experts,
    ensures
        r->Ok_0@.len() == router.num_group,
        ({
            let per = router.num_experts as int / router.num_group as int;
            let pair = r->Ok_0@[e / per];
            &&& pair.0 as int / per == e / per
            &&& pair.1 as int / per == e / per
            &&& pair.0 != pair.1
            &&& order_key(scores@[pair.0 as int]) >= order_key(scores@[pair.1 as int])
            &&& e != pair.0 && e != pair.1 ==> order_key(scores@[e]) <= order_key(
                scores@[pair.1 as int],
            )
        }),
{
    assert(router.is_led(scores@, r->Ok_0@, e));
}

/// What cannot be routed: experts that do not split evenly into groups of at least two, more
/// groups than there are, and more experts than there are, in this order.
pub proof fn law_routing_errors(
    router: &Glm5NextTopkRouter,
    scores: &Vec<F32>,
    group_scores: &Vec<F32>,
    r: Result<Vec<usize>, LmError>,
)
    requires
        router.num_group > 0,
        call_ensures(Glm5NextTopkRouter::forward, (router, scores, group_scores), r),
    ensures
        ({
            let n = router.num_experts as int;
            let g = router.num_group as int;
            if n % g != 0 {
                r == Err::<Vec<usize>, LmError>(
                    LmError::ExpertGroups { experts: router.num_experts, groups: router.num_group },
                )
            } else if n < 2 * g {
                r == Err::<Vec<usize>, LmError>(LmError::TopkWidth { k: 2, len: (n / g) as usize })
            } else if router.topk_group > g {
                r == Err::<Vec<usize>, LmError>(
                    LmError::TopkWidth { k: router.topk_group, len: router.num_group },
                )
            } else if router.top_k > n {
                r == Err::<Vec<usize>, LmError>(
                    LmError::TopkWidth { k: router.top_k, len: router.num_experts },
                )
            } else {
                r is Ok
            }
        }),
{
    let n = router.num_experts as int;
    let g = router.num_group as int;
    lemma_fundamental_div_mod(n, g);
    let q = n / g;
    if n % g == 0 {
        if q < 2 {
            assert(n < 2 * g) by (nonlinear_arith)
                requires
                    n == g * q,
                    q < 2,
                    g > 0,
            ;
        } else {
            assert(n >= 2 * g) by (nonlinear_arith)
                requires
                    n == g * q,
                    q >= 2,
                    g > 0,
            ;
        }
    }
}

/// Routed experts lie in the best groups: where these hold enough experts and no score is
/// negative infinity, every expert that is taken belongs to one of the `topk_group` groups of
/// the highest group scores.
pub proof fn law_routed_experts_lie_in_the_best_groups(
    router: &Glm5NextTopkRouter,
    scores: &Vec<F32>,
    group_scores: &Vec<F32>,
    r: Result<Vec<usize>, LmError>,
)
    requires
        call_ensures(Glm5NextTopkRouter::forward, (router, scores, group_scores), r),
        router.num_group > 0,
        router.num_experts > 0,
        router.num_experts as int % router.num_group as int == 0,
        scores@.len() == router.num_experts,
        group_scores@.len() == router.num_group,
        router.top_k <= router.topk_group * (router.num_experts as int / router.num_group as int),
        forall|e: int|
            0 <= e < router.num_experts ==> order_key(#[trigger] scores@[e]) > -0x7F80_0000,
        r is Ok,
    ensures
        exists|groups: Seq<usize>|
            #[trigger] is_topk(group_scores@, router.topk_group as nat, groups) && forall|i: int|
                0 <= i < router.top_k ==> groups.contains(
                    (#[trigger] r->Ok_0@[i] as int / (router.num_experts as int
                        / router.num_group as int)) as usize,
                ),
{
    let chosen = r->Ok_0@;
    let per = router.per_group();
    let groups = choose|groups: Seq<usize>| #[trigger]
        is_topk(group_scores@, router.topk_group as nat, groups) && is_topk(
            masked_experts(scores@, per, groups),
            router.top_k as nat,
            chosen,
        );
    lemma_fundamental_div_mod(router.num_experts as int, router.num_group as int);
    let n = router.num_group as int;
    assert(per * n == n * per) by (nonlinear_arith);
    assert(per > 0) by (nonlinear_arith)
        requires
            router.num_experts as int == n * per,
            router.num_experts > 0,
            n > 0,
    ;
    assert forall|g: int| 0 <= g < groups.len() implies #[trigger] groups[g] < router.num_group by {
        assert(groups[g] < group_scores@.len());
    }
    assert forall|i: int| 0 <= i < router.top_k implies groups.contains(
        (#[trigger] chosen[i] as int / (router.num_experts as int / router.num_group as int))
            as usize,
    ) by {
        law_routing_stays_in_groups(router, scores@, groups, chosen, i);
    }
}

/// Group scores cannot be formed where routing cannot split the experts, and for the same
/// reason.
pub proof fn law_grouping_errors(
    router: &Glm5NextTopkRouter,
    scores: &Vec<F32>,
    r: Result<Vec<(usize, usize)>, LmError>,
)
    requires
        router.num_group > 0,
        call_ensures(Glm5NextTopkRouter::group_tops, (router, scores), r),
    ensures
        ({
            let n = router.num_experts as int;
            let g = router.num_group as int;
            if n % g != 0 {
                r == Err::<Vec<(usize, usize)>, LmError>(
                    LmError::ExpertGroups { experts: router.num_experts, groups: router.num_group },
                )
            } else if n < 2 * g {
                r == Err::<Vec<(usize, usize)>, LmError>(
                    LmError::TopkWidth { k: 2, len: (n / g) as usize },
                )
            } else {
                r is Ok
            }
        }),
{
    let n = router.num_experts as int;
    let g = router.num_group as int;
    lemma_fundamental_div_mod(n, g);
    let q = n / g;
    if n % g == 0 {
        if q < 2 {
            assert(n < 2 * g) by (nonlinear_arith)
                requires
                    n == g * q,
                    q < 2,
                    g > 0,
            ;
        } else {
            assert(n >= 2 * g) by (nonlinear_arith)
                requires
                    n == g * q,
                    q >= 2,
                    g > 0,
            ;
        }
    }
}

} // verus!
