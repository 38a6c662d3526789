//! Masks, skipped blocks and paging for masked attention with a sink.
//!
//! The attention kernels take one additive mask per query, zero where the query
//! attends and negative infinity elsewhere, and work through the keys in blocks of
//! 64 columns. A block that is masked throughout is skipped.

use vstd::arithmetic::div_mod::{
    lemma_fundamental_div_mod, lemma_fundamental_div_mod_converse, lemma_mod_bound,
};
use vstd::prelude::*;

use crate::float::{F32, INF_REST};
use crate::indices::{count_blocks, indices_where, is_among, law_indices_where};

verus! {

/// Columns per block.
pub const BLOCK_COLS: usize = 64;

/// A mask entry: zero where the query attends, negative infinity elsewhere.
pub open spec fn mask_value(visible: bool) -> F32 {
    F32 {
        bits: if visible {
            0
        } else {
            0xFF80_0000
        },
    }
}

fn mask_entry(visible: bool) -> (r: F32)
    ensures
        r == mask_value(visible),
{
    if visible {
        F32 { bits: 0 }
    } else {
        F32 { bits: 0xFF80_0000 }
    }
}

/// A causal sliding window: the query and the `window - 1` tokens before it.
pub open spec fn in_window(q: int, j: int, window: int) -> bool {
    q - window < j <= q
}

/// What query `q` attends to in keys made of a local prefix and a compressed suffix:
/// a sliding window of the prefix, and the compressed entries whose `rate` tokens
/// are all at or before the query.
pub open spec fn hetero_visible(q: int, j: int, local_len: int, window: int, rate: int) -> bool {
    if j < local_len {
        in_window(q, j, window)
    } else {
        j - local_len < (q + 1) / rate
    }
}

/// As `hetero_visible`, with the compressed entries of the selected blocks in place
/// of the causal ones.
pub open spec fn indexed_visible(
    q: int,
    j: int,
    local_len: int,
    window: int,
    rate: int,
    selected: Seq<usize>,
) -> bool {
    if j < local_len {
        in_window(q, j, window)
    } else {
        selected.contains(((j - local_len) / rate) as usize)
    }
}

/// `x` is the mask entry that `visible` gives for flat index `p`.
spec fn shows<F: Fn(usize, usize) -> bool>(visible: F, cols: int, p: int, x: F32) -> bool {
    exists|v: bool|
        x == #[trigger] mask_value(v) && visible.ensures(
            ((p / cols) as usize, (p % cols) as usize),
            v,
        )
}

/// Builds a row-major `rows` x `cols` mask.
fn build_mask<F: Fn(usize, usize) -> bool>(rows: usize, cols: usize, visible: F) -> (r: Vec<F32>)
    requires
        rows * cols <= usize::MAX,
        forall|q: usize, j: usize| q < rows && j < cols ==> #[trigger] visible.requires((q, j)),
    ensures
        r@.len() == rows * cols,
        forall|p: int|
            0 <= p < r@.len() ==> shows(visible, cols as int, p, #[trigger] r@[p]),
{
    let mut r: Vec<F32> = Vec::with_capacity(rows * cols);
    let mut q: usize = 0;
    let mut j: usize = 0;
    let n: usize = rows * cols;
    proof {
        assert(n == 0 ==> rows == 0 || cols == 0) by (nonlinear_arith)
            requires
                n == rows * cols,
        ;
        assert(n > 0 ==> rows > 0 && cols > 0) by (nonlinear_arith)
            requires
                n == rows * cols,
        ;
    }
    while r.len() < n
        invariant
            n == rows * cols,
            r@.len() <= n,
            r@.len() == q * cols + j,
            n > 0 ==> j < cols,
            forall|q: usize, j: usize| q < rows && j < cols ==> #[trigger] visible.requires((q, j)),
            forall|p: int|
                0 <= p < r@.len() ==> shows(visible, cols as int, p, #[trigger] r@[p]),
        decreases n - r@.len(),
    {
        proof {
            assert(q < rows) by (nonlinear_arith)
                requires
                    q * cols + j < rows * cols,
                    0 <= j,
                    cols > 0,
            ;
            lemma_fundamental_div_mod_converse(r@.len() as int, cols as int, q as int, j as int);
        }
        let ghost before = r@;
        let v: bool = visible(q, j);
        r.push(mask_entry(v));
        proof {
            let p = before.len() as int;
            assert(r@[p] == mask_value(v) && visible.ensures(
                ((p / cols as int) as usize, (p % cols as int) as usize),
                v,
            ));
            assert(shows(visible, cols as int, p, r@[p]));
            assert forall|x: int| 0 <= x < r@.len() implies shows(
                visible,
                cols as int,
                x,
                #[trigger] r@[x],
            ) by {
                if x < p {
                    assert(r@[x] == before[x]);
                }
            }
        }
        if j + 1 < cols {
            j = j + 1;
        } else {
            proof {
                assert((q + 1) * cols == q * cols + cols) by (nonlinear_arith);
            }
            q = q + 1;
            j = 0;
        }
    }
    r
}

/// The mask of `sq` queries over a local prefix and a compressed suffix, row by row.
pub fn build_hetero_mask(
    sq: usize,
    local_len: usize,
    compressed_len: usize,
    window: usize,
    compress_rate: usize,
) -> (r: Vec<F32>)
    requires
        compress_rate > 0,
        local_len + compressed_len <= usize::MAX,
        sq * (local_len + compressed_len) <= usize::MAX,
    ensures
        r@.len() == sq * (local_len + compressed_len),
        forall|p: int|
            0 <= p < r@.len() ==> #[trigger] r@[p] == mask_value(
                hetero_visible(
                    p / (local_len + compressed_len),
                    p % (local_len + compressed_len),
                    local_len as int,
                    window as int,
                    compress_rate as int,
                ),
            ),
{
    let skv: usize = local_len + compressed_len;
    let visible = |q: usize, j: usize| -> (v: bool)
        requires
            q < sq,
            compress_rate > 0,
        ensures
            v == hetero_visible(
                q as int,
                j as int,
                local_len as int,
                window as int,
                compress_rate as int,
            ),
        {
            if j < local_len {
                j <= q && q - j < window
            } else {
                j - local_len < (q + 1) / compress_rate
            }
        };
    let r = build_mask(sq, skv, visible);
    proof {
        assert forall|p: int| 0 <= p < r@.len() implies #[trigger] r@[p] == mask_value(
            hetero_visible(
                p / (local_len + compressed_len),
                p % (local_len + compressed_len),
                local_len as int,
                window as int,
                compress_rate as int,
            ),
        ) by {
            lemma_flat_index(p, sq as int, skv as int);
        }
    }
    r
}

/// The mask of queries that select compressed blocks of `compress_rate` entries each:
/// query `q` attends to its window and to the blocks in `selected[q]`.
pub fn build_indexer_mask(
    local_len: usize,
    compressed_len: usize,
    window: usize,
    compress_rate: usize,
    selected: &Vec<Vec<usize>>,
) -> (r: Vec<F32>)
    requires
        compress_rate > 0,
        local_len + compressed_len <= usize::MAX,
        selected@.len() * (local_len + compressed_len) <= usize::MAX,
    ensures
        r@.len() == selected@.len() * (local_len + compressed_len),
        forall|p: int|
            0 <= p < r@.len() ==> #[trigger] r@[p] == mask_value(
                indexed_visible(
                    p / (local_len + compressed_len),
                    p % (local_len + compressed_len),
                    local_len as int,
                    window as int,
                    compress_rate as int,
                    selected@[p / (local_len + compressed_len)]@,
                ),
            ),
{
    let skv: usize = local_len + compressed_len;
    let visible = |q: usize, j: usize| -> (v: bool)
        requires
            q < selected@.len(),
            compress_rate > 0,
        ensures
            v == indexed_visible(
                q as int,
                j as int,
                local_len as int,
                window as int,
                compress_rate as int,
                selected@[q as int]@,
            ),
        {
            if j < local_len {
                j <= q && q - j < window
            } else {
                is_among(&selected[q], (j - local_len) / compress_rate)
            }
        };
    let r = build_mask(selected.len(), skv, visible);
    proof {
        assert forall|p: int| 0 <= p < r@.len() implies #[trigger] r@[p] == mask_value(
            indexed_visible(
                p / (local_len + compressed_len),
                p % (local_len + compressed_len),
                local_len as int,
                window as int,
                compress_rate as int,
                selected@[p / (local_len + compressed_len)]@,
            ),
        ) by {
            lemma_flat_index(p, selected@.len() as int, skv as int);
        }
    }
    r
}

/// Row and column of a flat index.
proof fn lemma_flat_index(p: int, n: int, m: int)
    requires
        0 <= p < n * m,
        m >= 0,
    ensures
        m > 0,
        0 <= p / m < n,
        0 <= p % m < m,
{
    assert(m > 0) by (nonlinear_arith)
        requires
            0 <= p < n * m,
            m >= 0,
    ;
    lemma_fundamental_div_mod(p, m);
    lemma_mod_bound(p, m);
    let q = p / m;
    let d = p % m;
    assert(0 <= q < n) by (nonlinear_arith)
        requires
            p == m * q + d,
            0 <= d < m,
            0 <= p < n * m,
    ;
}

/// The mask of one decoding query over `kv_len` cached tokens: it attends to the last
/// `window` of them.
pub fn mask_row(kv_len: usize, window: usize) -> (r: Vec<F32>)
    ensures
        r@.len() == kv_len,
        forall|j: int| 0 <= j < kv_len ==> #[trigger] r@[j] == mask_value(kv_len - j <= window),
{
    let mut r: Vec<F32> = Vec::with_capacity(kv_len);
    let mut j: usize = 0;
    while j < kv_len
        invariant
            j <= kv_len,
            r@.len() == j,
            forall|a: int| 0 <= a < j ==> #[trigger] r@[a] == mask_value(kv_len - a <= window),
        decreases kv_len - j,
    {
        r.push(mask_entry(kv_len - j <= window));
        j = j + 1;
    }
    r
}

/// Whether a mask entry hides its column.
pub open spec fn hides(v: F32) -> bool {
    !v.is_finite()
}

fn is_hidden(v: F32) -> (r: bool)
    ensures
        r == hides(v),
{
    v.magnitude_bits() >= INF_REST
}

/// Every column of a block is masked.
pub open spec fn is_skipped(mask: Seq<F32>, block: int) -> bool {
    forall|c: int| 0 <= c < mask.len() && c / 64 == block ==> hides(#[trigger] mask[c])
}

/// Whether every column of a block is masked.
pub fn block_is_skipped(mask: &[F32], block: usize) -> (r: bool)
    requires
        block * 64 <= mask@.len(),
    ensures
        r == is_skipped(mask@, block as int),
{
    let n: usize = mask.len();
    let base: usize = block * BLOCK_COLS;
    let end: usize = if n - base < BLOCK_COLS {
        n
    } else {
        base + BLOCK_COLS
    };
    let mut c: usize = base;
    while c < end
        invariant
            base <= c <= end,
            n == mask@.len(),
            base == block * 64,
            end <= n,
            end <= base + 64,
            forall|x: int| base <= x < c ==> hides(#[trigger] mask@[x]),
        decreases end - c,
    {
        if !is_hidden(mask[c]) {
            proof {
                assert(c / 64 == block);
                assert(!hides(mask@[c as int]));
            }
            return false;
        }
        c = c + 1;
    }
    proof {
        assert forall|x: int| 0 <= x < mask@.len() && x / 64 == block implies hides(
            #[trigger] mask@[x],
        ) by {
            assert(base <= x < end);
        }
    }
    true
}

/// For every column, whether its block is worked through.
pub open spec fn attended_flags(mask: Seq<F32>) -> Seq<bool> {
    Seq::new(mask.len(), |c: int| !is_skipped(mask, c / 64))
}

/// The columns of the blocks that are worked through, in order.
pub fn attended_columns(mask: &[F32]) -> (r: Vec<usize>)
    ensures
        r@ == indices_where(attended_flags(mask@), mask@.len()),
{
    let n: usize = mask.len();
    let mut r: Vec<usize> = Vec::new();
    let mut c: usize = 0;
    let mut keep: bool = false;
    while c < n
        invariant
            c <= n,
            n == mask@.len(),
            r@ == indices_where(attended_flags(mask@), c as nat),
            c > 0 ==> keep == !is_skipped(mask@, (c - 1) / 64),
        decreases n - c,
    {
        if c % BLOCK_COLS == 0 {
            keep = !block_is_skipped(mask, c / BLOCK_COLS);
        }
        proof {
            assert(c % 64 != 0 ==> c / 64 == (c - 1) / 64);
            assert(keep == attended_flags(mask@)[c as int]);
        }
        if keep {
            r.push(c);
        }
        c = c + 1;
    }
    r
}

/// How many of the blocks of a mask row are skipped, and how many there are.
pub fn skipped_blocks(mask: &[F32]) -> (r: (usize, usize))
    ensures
        r.1 == (mask@.len() + 63) / 64,
        r.0 == skipped_count(mask@, r.1 as int),
{
    let n: usize = mask.len();
    let total: usize = count_blocks(n, BLOCK_COLS);
    let mut skipped: usize = 0;
    let mut b: usize = 0;
    while b < total
        invariant
            b <= total,
            n == mask@.len(),
            total == (n + 63) / 64,
            skipped <= b,
            skipped == skipped_count(mask@, b as int),
        decreases total - b,
    {
        if block_is_skipped(mask, b) {
            skipped = skipped + 1;
        }
        b = b + 1;
    }
    (skipped, total)
}

/// How many of the first `upto` blocks are skipped.
pub open spec fn skipped_count(mask: Seq<F32>, upto: int) -> int
    decreases upto,
{
    if upto <= 0 {
        0
    } else {
        skipped_count(mask, upto - 1) + if is_skipped(mask, upto - 1) {
            1int
        } else {
            0int
        }
    }
}

/// The state after folding columns one by one.
pub open spec fn fold_columns<S>(step: spec_fn(S, int) -> S, start: S, cols: Seq<usize>) -> S
    decreases cols.len(),
{
    if cols.len() == 0 {
        start
    } else {
        step(fold_columns(step, start, cols.drop_last()), cols.last() as int)
    }
}

/// The state after folding the first `upto` columns.
pub open spec fn fold_all<S>(step: spec_fn(S, int) -> S, start: S, upto: int) -> S
    decreases upto,
{
    if upto <= 0 {
        start
    } else {
        step(fold_all(step, start, upto - 1), upto - 1)
    }
}

/// Skipping is exact: where a masked column leaves the running state as it is, folding
/// only the blocks that are not masked throughout gives the state that folding every
/// column gives.
pub proof fn law_skipping_keeps_the_fold<S>(
    step: spec_fn(S, int) -> S,
    start: S,
    mask: Seq<F32>,
    upto: nat,
)
    requires
        upto <= mask.len() <= usize::MAX,
        forall|s: S, c: int|
            0 <= c < mask.len() && hides(mask[c]) ==> #[trigger] step(s, c) == s,
    ensures
        fold_columns(step, start, indices_where(attended_flags(mask), upto)) == fold_all(
            step,
            start,
            upto as int,
        ),
    decreases upto,
{
    if upto > 0 {
        let n = (upto - 1) as nat;
        law_skipping_keeps_the_fold(step, start, mask, n);
        let prev = indices_where(attended_flags(mask), n);
        let cur = indices_where(attended_flags(mask), upto);
        if attended_flags(mask)[n as int] {
            assert(cur == prev.push(n as usize));
            assert(cur.drop_last() =~= prev);
        } else {
            assert(is_skipped(mask, n as int / 64));
            assert(hides(mask[n as int]));
            let s = fold_all(step, start, n as int);
            assert(step(s, n as int) == s);
        }
    }
}

/// A query attends to no token behind it.
pub proof fn law_window_is_causal(q: int, j: int, local_len: int, window: int, rate: int)
    requires
        0 <= q < j < local_len,
        rate > 0,
    ensures
        !hetero_visible(q, j, local_len, window, rate),
{
}

/// A compressed entry that a query attends to holds only tokens at or before it.
pub proof fn law_compressed_entries_are_causal(
    q: int,
    c: int,
    local_len: int,
    window: int,
    rate: int,
    t: int,
)
    requires
        0 <= q,
        0 <= c,
        0 <= local_len,
        rate > 0,
        hetero_visible(q, local_len + c, local_len, window, rate),
        c * rate <= t < (c + 1) * rate,
    ensures
        t <= q,
{
    let n = (q + 1) / rate;
    lemma_fundamental_div_mod(q + 1, rate);
    lemma_mod_bound(q + 1, rate);
    assert((c + 1) * rate <= q + 1) by (nonlinear_arith)
        requires
            c < n,
            q + 1 == rate * n + (q + 1) % rate,
            0 <= (q + 1) % rate,
            rate > 0,
    ;
}

/// Pages of `page` tokens that hold `len` tokens.
pub open spec fn pages_of(len: int, page: int) -> int {
    (len + page - 1) / page
}

/// Pages of the first `upto` sequences together.
pub open spec fn pages_before(kv_lens: Seq<usize>, page: int, upto: int) -> int
    decreases upto,
{
    if upto <= 0 {
        0
    } else {
        pages_before(kv_lens, page, upto - 1) + pages_of(kv_lens[upto - 1] as int, page)
    }
}

/// Tokens of the first `upto` sequences together.
pub open spec fn tokens_before(kv_lens: Seq<usize>, upto: int) -> int
    decreases upto,
{
    if upto <= 0 {
        0
    } else {
        tokens_before(kv_lens, upto - 1) + kv_lens[upto - 1]
    }
}

/// The most pages that one of the first `upto` sequences has.
pub open spec fn most_pages(kv_lens: Seq<usize>, page: int, upto: int) -> int
    decreases upto,
{
    if upto <= 0 {
        0
    } else {
        let prev = most_pages(kv_lens, page, upto - 1);
        let last = pages_of(kv_lens[upto - 1] as int, page);
        if last > prev {
            last
        } else {
            prev
        }
    }
}

/// Where the keys and values of a batch of sequences lie in a paged cache.
pub struct PagedLayout {
    /// For every sequence its pages in order; -1 fills a row.
    pub block_table: Vec<Vec<i32>>,
    /// Where every sequence starts among all tokens, and their number at the end.
    pub cu_seqlens: Vec<i32>,
    /// Number of pages.
    pub num_blocks: usize,
}

/// The row of the paged cache that holds token `j` of sequence `b`.
pub open spec fn slot(kv_lens: Seq<usize>, page: int, b: int, j: int) -> int {
    (pages_before(kv_lens, page, b) + j / page) * page + j % page
}

proof fn lemma_pages_of(len: int, page: int)
    requires
        page > 0,
        len >= 0,
    ensures
        0 <= pages_of(len, page),
        forall|j: int| 0 <= j < len ==> 0 <= #[trigger] (j / page) < pages_of(len, page),
{
    let n = pages_of(len, page);
    lemma_fundamental_div_mod(len + page - 1, page);
    lemma_mod_bound(len + page - 1, page);
    let d = (len + page - 1) % page;
    assert(0 <= n && page * n >= len) by (nonlinear_arith)
        requires
            len + page - 1 == page * n + d,
            0 <= d < page,
            len >= 0,
    ;
    assert forall|j: int| 0 <= j < len implies 0 <= #[trigger] (j / page) < n by {
        lemma_fundamental_div_mod(j, page);
        lemma_mod_bound(j, page);
        let q = j / page;
        let e = j % page;
        assert(0 <= q < n) by (nonlinear_arith)
            requires
                j == page * q + e,
                0 <= e < page,
                0 <= j < len,
                page * n >= len,
        ;
    }
}

proof fn lemma_sums_grow(kv_lens: Seq<usize>, page: int, a: int, b: int)
    requires
        page > 0,
        0 <= a <= b <= kv_lens.len(),
    ensures
        0 <= pages_before(kv_lens, page, a) <= pages_before(kv_lens, page, b),
        0 <= tokens_before(kv_lens, a) <= tokens_before(kv_lens, b),
    decreases b,
{
    if b > 0 {
        lemma_pages_of(kv_lens[b - 1] as int, page);
        if a < b {
            lemma_sums_grow(kv_lens, page, a, b - 1);
        } else {
            lemma_sums_grow(kv_lens, page, a - 1, b - 1);
        }
    }
}

/// Lays sequences of the given lengths out in pages, one after the other.
pub fn paged_layout(kv_lens: &Vec<usize>, page_block_size: usize) -> (r: PagedLayout)
    requires
        page_block_size > 0,
        pages_before(kv_lens@, page_block_size as int, kv_lens@.len() as int) <= i32::MAX,
        tokens_before(kv_lens@, kv_lens@.len() as int) <= i32::MAX,
    ensures
        r.block_table@.len() == kv_lens@.len(),
        forall|b: int|
            0 <= b < kv_lens@.len() ==> (#[trigger] r.block_table@[b])@.len() == most_pages(
                kv_lens@,
                page_block_size as int,
                kv_lens@.len() as int,
            ),
        forall|b: int, p: int|
            0 <= b < kv_lens@.len() && 0 <= p < r.block_table@[b]@.len()
                ==> #[trigger] r.block_table@[b]@[p] == (if p < pages_of(
                kv_lens@[b] as int,
                page_block_size as int,
            ) {
                pages_before(kv_lens@, page_block_size as int, b) + p
            } else {
                -1
            }),
        r.cu_seqlens@.len() == kv_lens@.len() + 1,
        forall|b: int|
            0 <= b <= kv_lens@.len() ==> #[trigger] r.cu_seqlens@[b] == tokens_before(kv_lens@, b),
        r.num_blocks == pages_before(kv_lens@, page_block_size as int, kv_lens@.len() as int),
{
    let n: usize = kv_lens.len();
    let ghost page = page_block_size as int;
    let mut widest: usize = 0;
    let mut i: usize = 0;
    while i < n
        invariant
            i <= n,
            n == kv_lens@.len(),
            page == page_block_size,
            page > 0,
            widest == most_pages(kv_lens@, page, i as int),
        decreases n - i,
    {
        let pages: usize = count_blocks(kv_lens[i], page_block_size);
        if pages > widest {
            widest = pages;
        }
        i = i + 1;
    }
    let mut block_table: Vec<Vec<i32>> = Vec::with_capacity(n);
    let mut cu_seqlens: Vec<i32> = Vec::with_capacity(n);
    let mut first: usize = 0;
    let mut total: i32 = 0;
    cu_seqlens.push(0);
    let mut b: usize = 0;
    while b < n
        invariant
            b <= n,
            n == kv_lens@.len(),
            page == page_block_size,
            page > 0,
            pages_before(kv_lens@, page, n as int) <= i32::MAX,
            tokens_before(kv_lens@, n as int) <= i32::MAX,
            widest == most_pages(kv_lens@, page, n as int),
            first == pages_before(kv_lens@, page, b as int),
            total == tokens_before(kv_lens@, b as int),
            block_table@.len() == b,
            cu_seqlens@.len() == b + 1,
            forall|a: int| 0 <= a < b ==> (#[trigger] block_table@[a])@.len() == widest,
            forall|a: int, p: int|
                0 <= a < b && 0 <= p < widest ==> #[trigger] block_table@[a]@[p] == (if p < pages_of(
                    kv_lens@[a] as int,
                    page,
                ) {
                    pages_before(kv_lens@, page, a) + p
                } else {
                    -1
                }),
            forall|a: int|
                0 <= a <= b ==> #[trigger] cu_seqlens@[a] == tokens_before(kv_lens@, a),
        decreases n - b,
    {
        proof {
            lemma_sums_grow(kv_lens@, page, b as int, n as int);
            lemma_sums_grow(kv_lens@, page, b + 1, n as int);
            lemma_pages_of(kv_lens@[b as int] as int, page);
        }
        let pages: usize = count_blocks(kv_lens[b], page_block_size);
        let mut row: Vec<i32> = Vec::with_capacity(widest);
        let mut p: usize = 0;
        while p < widest
            invariant
                p <= widest,
                first + pages <= i32::MAX,
                row@.len() == p,
                forall|x: int|
                    0 <= x < p ==> #[trigger] row@[x] == (if x < pages {
                        first + x
                    } else {
                        -1
                    }),
            decreases widest - p,
        {
            if p < pages {
                row.push((first + p) as i32);
            } else {
                row.push(-1);
            }
            p = p + 1;
        }
        block_table.push(row);
        first = first + pages;
        total = total + kv_lens[b] as i32;
        cu_seqlens.push(total);
        b = b + 1;
    }
    PagedLayout { block_table, cu_seqlens, num_blocks: first }
}

/// Every token has a row of the paged cache of its own.
pub proof fn law_tokens_have_their_own_slot(
    kv_lens: Seq<usize>,
    page: int,
    b1: int,
    j1: int,
    b2: int,
    j2: int,
)
    requires
        page > 0,
        0 <= b1 < kv_lens.len(),
        0 <= b2 < kv_lens.len(),
        0 <= j1 < kv_lens[b1],
        0 <= j2 < kv_lens[b2],
        b1 != b2 || j1 != j2,
    ensures
        slot(kv_lens, page, b1, j1) != slot(kv_lens, page, b2, j2),
        0 <= slot(kv_lens, page, b1, j1) < pages_before(kv_lens, page, kv_lens.len() as int) * page,
{
    let f1 = pages_before(kv_lens, page, b1);
    let f2 = pages_before(kv_lens, page, b2);
    let all = pages_before(kv_lens, page, kv_lens.len() as int);
    lemma_pages_of(kv_lens[b1] as int, page);
    lemma_pages_of(kv_lens[b2] as int, page);
    assert(0 <= j1 / page < pages_of(kv_lens[b1] as int, page));
    assert(0 <= j2 / page < pages_of(kv_lens[b2] as int, page));
    lemma_fundamental_div_mod(j1, page);
    lemma_fundamental_div_mod(j2, page);
    lemma_mod_bound(j1, page);
    lemma_mod_bound(j2, page);
    lemma_sums_grow(kv_lens, page, b1 + 1, kv_lens.len() as int);
    lemma_sums_grow(kv_lens, page, 0, b1);
    let p1 = f1 + j1 / page;
    let p2 = f2 + j2 / page;
    let e1 = j1 % page;
    let e2 = j2 % page;
    if b1 < b2 {
        lemma_sums_grow(kv_lens, page, b1 + 1, b2);
        assert(p1 < p2);
    } else if b2 < b1 {
        lemma_sums_grow(kv_lens, page, b2 + 1, b1);
        assert(p2 < p1);
    }
    assert(0 <= p1 * page + e1 < all * page) by (nonlinear_arith)
        requires
            0 <= p1 < all,
            0 <= e1 < page,
    ;
    if p1 * page + e1 == p2 * page + e2 {
        assert(p1 == p2) by (nonlinear_arith)
            requires
                p1 * page + e1 == p2 * page + e2,
                0 <= e1 < page,
                0 <= e2 < page,
        ;
    }
}

/// A mask entry is zero where the query attends and negative infinity elsewhere, so that
/// exactly the entries of hidden columns hide.
pub proof fn law_mask_entries(visible: bool)
    ensures
        visible ==> mask_value(visible).bits == 0,
        !visible ==> mask_value(visible).is_inf() && mask_value(visible).neg(),
        hides(mask_value(visible)) <==> !visible,
{
}

/// The window of a query is itself and the `window - 1` tokens before it: the local token
/// `d` places before the query is attended to exactly where `d` is less than the window.
pub proof fn law_window_holds_the_last_tokens(
    q: int,
    d: int,
    local_len: int,
    window: int,
    rate: int,
    selected: Seq<usize>,
)
    requires
        0 <= q - d < local_len,
        rate > 0,
    ensures
        d >= 0 ==> (hetero_visible(q, q - d, local_len, window, rate) <==> d < window),
        d >= 0 ==> (indexed_visible(q, q - d, local_len, window, rate, selected) <==> d < window),
        d < 0 ==> !hetero_visible(q, q - d, local_len, window, rate),
        d < 0 ==> !indexed_visible(q, q - d, local_len, window, rate, selected),
{
}

/// A query attends to a compressed entry exactly where the last of the entry's tokens is
/// at or before it.
pub proof fn law_compressed_entries_appear_when_full(
    q: int,
    c: int,
    local_len: int,
    window: int,
    rate: int,
)
    requires
        0 <= q,
        0 <= c,
        0 <= local_len,
        rate > 0,
    ensures
        hetero_visible(q, local_len + c, local_len, window, rate) <==> c * rate + (rate - 1) <= q,
{
    let n = (q + 1) / rate;
    let d = (q + 1) % rate;
    lemma_fundamental_div_mod(q + 1, rate);
    lemma_mod_bound(q + 1, rate);
    if c < n {
        assert(c * rate + rate <= q + 1) by (nonlinear_arith)
            requires
                c + 1 <= n,
                q + 1 == rate * n + d,
                0 <= d,
                rate > 0,
        ;
    }
    if c * rate + rate <= q + 1 {
        assert(c < n) by (nonlinear_arith)
            requires
                c * rate + rate <= q + 1,
                q + 1 == rate * n + d,
                d < rate,
                rate > 0,
        ;
    }
}

/// A query that selects blocks attends to all `rate` entries of a selected block and to
/// none of the others.
pub proof fn law_selected_blocks_are_attended_whole(
    q: int,
    block: usize,
    t: int,
    local_len: int,
    window: int,
    rate: int,
    selected: Seq<usize>,
)
    requires
        0 <= local_len,
        rate > 0,
        0 <= t < rate,
    ensures
        indexed_visible(q, local_len + block * rate + t, local_len, window, rate, selected)
            <==> selected.contains(block),
{
    assert(block * rate >= 0) by (nonlinear_arith)
        requires
            rate > 0,
            block >= 0,
    ;
    lemma_fundamental_div_mod_converse(block * rate + t, rate, block as int, t);
}

/// Decoding sees what the prefill sees: the mask of one query over the cache is that of
/// the last query of a prefill over the same tokens.
pub proof fn law_decoding_mask_is_the_last_row(kv_len: int, j: int, window: int, rate: int)
    requires
        0 <= j < kv_len,
        rate > 0,
    ensures
        mask_value(kv_len - j <= window) == mask_value(
            hetero_visible(kv_len - 1, j, kv_len, window, rate),
        ),
{
}

/// A block of 64 columns is skipped exactly where none of its columns is attended to.
pub proof fn law_skipped_blocks_hold_nothing(mask: Seq<F32>, block: int, c: int)
    requires
        0 <= block,
        64 * block <= c < 64 * block + 64,
        c < mask.len(),
    ensures
        mask[c].is_finite() ==> !is_skipped(mask, block),
        (forall|x: int| 64 * block <= x < 64 * block + 64 && x < mask.len() ==> !(
        #[trigger] mask[x]).is_finite()) ==> is_skipped(mask, block),
{
    assert(c / 64 == block);
    if is_skipped(mask, block) {
        assert(hides(mask[c]));
    }
    if forall|x: int| 64 * block <= x < 64 * block + 64 && x < mask.len() ==> !(
    #[trigger] mask[x]).is_finite() {
        assert forall|x: int| 0 <= x < mask.len() && x / 64 == block implies hides(
            #[trigger] mask[x],
        ) by {
            assert(!mask[x].is_finite());
        }
    }
}

/// The count of skipped blocks is the number of them.
pub proof fn law_skipped_blocks_are_counted(mask: Seq<F32>, upto: int)
    requires
        0 <= upto,
    ensures
        Set::new(|b: int| 0 <= b < upto && is_skipped(mask, b)).finite(),
        skipped_count(mask, upto) == Set::new(|b: int| 0 <= b < upto && is_skipped(mask, b)).len(),
    decreases upto,
{
    let all = Set::new(|b: int| 0 <= b < upto && is_skipped(mask, b));
    if upto == 0 {
        assert(all =~= Set::empty());
    } else {
        law_skipped_blocks_are_counted(mask, upto - 1);
        let prev = Set::new(|b: int| 0 <= b < upto - 1 && is_skipped(mask, b));
        if is_skipped(mask, upto - 1) {
            assert(all =~= prev.insert(upto - 1));
            assert(!prev.contains(upto - 1));
        } else {
            assert(all =~= prev);
        }
    }
}

/// Attended columns are those of the blocks that are not skipped, in increasing order;
/// every column that a query attends to is among them.
pub proof fn law_attended_columns(mask: Seq<F32>, c: int)
    requires
        mask.len() <= usize::MAX,
        0 <= c < mask.len(),
    ensures
        mask[c].is_finite() ==> indices_where(attended_flags(mask), mask.len()).contains(
            c as usize,
        ),
        indices_where(attended_flags(mask), mask.len()).contains(c as usize) ==> !is_skipped(
            mask,
            c / 64,
        ),
        forall|a: int, b: int|
            0 <= a < b < indices_where(attended_flags(mask), mask.len()).len()
                ==> #[trigger] indices_where(attended_flags(mask), mask.len())[a]
                < #[trigger] indices_where(attended_flags(mask), mask.len())[b],
{
    let flags = attended_flags(mask);
    let list = indices_where(flags, mask.len());
    law_indices_where(flags, mask.len());
    law_skipped_blocks_hold_nothing(mask, c / 64, c);
    if mask[c].is_finite() {
        assert(flags[c]);
    }
    if list.contains(c as usize) {
        let a = choose|a: int| 0 <= a < list.len() && list[a] == c as usize;
        assert(flags[list[a] as int]);
    }
}

/// A sequence has just as many pages as its tokens need: they fill all but the last, and
/// fit.
pub proof fn law_pages_fit_the_tokens(len: int, page: int)
    requires
        page > 0,
        len >= 0,
    ensures
        len <= pages_of(len, page) * page,
        pages_of(len, page) * page < len + page,
{
    let n = pages_of(len, page);
    lemma_fundamental_div_mod(len + page - 1, page);
    lemma_mod_bound(len + page - 1, page);
    assert(n * page == page * n) by (nonlinear_arith);
}

/// Pages and tokens of the sequences lie back to back, from the first on: each sequence
/// starts where the one before it ends.
pub proof fn law_sequences_lie_back_to_back(kv_lens: Seq<usize>, page: int, b: int)
    requires
        page > 0,
        0 <= b < kv_lens.len(),
    ensures
        pages_before(kv_lens, page, 0) == 0,
        tokens_before(kv_lens, 0) == 0,
        tokens_before(kv_lens, b + 1) - tokens_before(kv_lens, b) == kv_lens[b],
        kv_lens[b] <= (pages_before(kv_lens, page, b + 1) - pages_before(kv_lens, page, b)) * page,
        (pages_before(kv_lens, page, b + 1) - pages_before(kv_lens, page, b)) * page < kv_lens[b]
            + page,
{
    law_pages_fit_the_tokens(kv_lens[b] as int, page);
}

/// The table is as wide as the longest sequence needs: no sequence has more pages, and one
/// has as many.
pub proof fn law_table_is_as_wide_as_needed(kv_lens: Seq<usize>, page: int, upto: int)
    requires
        page > 0,
        0 <= upto <= kv_lens.len(),
    ensures
        forall|b: int|
            0 <= b < upto ==> pages_of(#[trigger] kv_lens[b] as int, page) <= most_pages(
                kv_lens,
                page,
                upto,
            ),
        most_pages(kv_lens, page, upto) > 0 ==> exists|b: int|
            0 <= b < upto && pages_of(#[trigger] kv_lens[b] as int, page) == most_pages(
                kv_lens,
                page,
                upto,
            ),
        most_pages(kv_lens, page, upto) >= 0,
    decreases upto,
{
    if upto > 0 {
        law_table_is_as_wide_as_needed(kv_lens, page, upto - 1);
        lemma_pages_of(kv_lens[upto - 1] as int, page);
    }
}

/// The tokens of a sequence follow each other in the paged cache, from the first row of
/// its first page on.
pub proof fn law_slots_follow_each_other(kv_lens: Seq<usize>, page: int, b: int, j: int)
    requires
        page > 0,
        0 <= j,
    ensures
        slot(kv_lens, page, b, 0) == pages_before(kv_lens, page, b) * page,
        slot(kv_lens, page, b, j) == slot(kv_lens, page, b, 0) + j,
{
    let f = pages_before(kv_lens, page, b);
    let q = j / page;
    lemma_fundamental_div_mod(j, page);
    assert((f + q) * page == f * page + page * q) by (nonlinear_arith);
    assert(0int / page == 0 && 0int % page == 0) by (nonlinear_arith)
        requires
            page > 0,
    ;
}

} // verus!
