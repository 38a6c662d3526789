//! Cached decoding selects the tokens that one pass over the whole sequence does.

use vstd::arithmetic::div_mod::{lemma_fundamental_div_mod, lemma_fundamental_div_mod_converse};
use vstd::prelude::*;
use vstd::set_lib::{lemma_int_range, lemma_len_subset, set_int_range};

use super::indexer::{complete_somewhere, kept_pools, masked_scores, Glm5NextTextIndexer};
use super::select::{
    candidate, first_valid, law_candidates_ignore_later_tokens, law_tail_ignores_later_tokens,
    lemma_first_from, lemma_first_of_prefix, pool_complete, pool_token, selected_token, tail_token,
};
use crate::float::F32;
use crate::indices::law_indices_where;
use crate::topk::{is_topk, order_key};

verus! {

/// Token `j` is among the selected ones.
pub open spec fn picks(out: Seq<i64>, j: int) -> bool {
    exists|x: int| 0 <= x < out.len() && #[trigger] out[x] == j
}

/// Every pool is listed at most once.
pub open spec fn listed_once(keep: Seq<usize>) -> bool {
    forall|a: int, b: int| 0 <= a < b < keep.len() ==> #[trigger] keep[a] != #[trigger] keep[b]
}

/// Every candidate of the query is listed, and `scores` gives it the number `score`
/// does.
pub open spec fn scored_by(
    valid: Seq<bool>,
    k: int,
    qpos: int,
    keep: Seq<usize>,
    scores: Seq<F32>,
    score: spec_fn(int) -> F32,
) -> bool {
    &&& listed_once(keep)
    &&& keep.len() <= usize::MAX
    &&& scores.len() == keep.len()
    &&& forall|p: int|
        0 <= p && #[trigger] candidate(valid, k, p, qpos) ==> p <= usize::MAX && keep.contains(
            p as usize,
        )
    &&& forall|s: int|
        0 <= s < keep.len() && candidate(valid, k, keep[s] as int, qpos) ==> #[trigger] scores[s]
            == score(keep[s] as int)
}

/// The candidates that score higher than pool `p`.
pub open spec fn better(
    valid: Seq<bool>,
    k: int,
    qpos: int,
    score: spec_fn(int) -> F32,
    p: int,
) -> Set<int> {
    Set::new(
        |q: int|
            0 <= q <= valid.len() && candidate(valid, k, q, qpos) && order_key(score(q))
                > order_key(score(p)),
    )
}

/// The candidates that score as high as pool `p` or higher, itself among them.
pub open spec fn at_least(
    valid: Seq<bool>,
    k: int,
    qpos: int,
    score: spec_fn(int) -> F32,
    p: int,
) -> Set<int> {
    Set::new(
        |q: int|
            0 <= q <= valid.len() && candidate(valid, k, q, qpos) && order_key(score(q))
                >= order_key(score(p)),
    )
}

/// It is clear which candidates are the `want` best: one that fewer than `want` candidates
/// outscore is among the best together with all that tie with it, and does not score
/// negative infinity, which is what a pool scores that may not be chosen. Ties among the
/// winners and ties among the losers are clear.
pub open spec fn ranks_clearly(
    valid: Seq<bool>,
    k: int,
    qpos: int,
    score: spec_fn(int) -> F32,
    want: nat,
) -> bool {
    forall|p: int|
        0 <= p && #[trigger] candidate(valid, k, p, qpos) && better(valid, k, qpos, score, p).len()
            < want ==> order_key(score(p)) > -0x7F80_0000 && at_least(
            valid,
            k,
            qpos,
            score,
            p,
        ).len() <= want
}

/// The pools that a query may select.
pub open spec fn candidates(valid: Seq<bool>, k: int, qpos: int) -> Set<int> {
    Set::new(|q: int| 0 <= q <= valid.len() && candidate(valid, k, q, qpos))
}

/// Where all candidates fit and none scores negative infinity, it is clear which are the
/// best, whatever they score otherwise.
pub proof fn law_fitting_candidates_rank_clearly(
    valid: Seq<bool>,
    k: int,
    qpos: int,
    score: spec_fn(int) -> F32,
    want: nat,
)
    requires
        candidates(valid, k, qpos).len() <= want,
        forall|p: int|
            0 <= p && #[trigger] candidate(valid, k, p, qpos) ==> order_key(score(p))
                > -0x7F80_0000,
    ensures
        ranks_clearly(valid, k, qpos, score, want),
{
    let all = candidates(valid, k, qpos);
    lemma_int_range(0, valid.len() as int + 1);
    lemma_len_subset(all, set_int_range(0, valid.len() as int + 1));
    assert forall|p: int| 0 <= p && #[trigger] candidate(valid, k, p, qpos) && better(
        valid,
        k,
        qpos,
        score,
        p,
    ).len() < want implies order_key(score(p)) > -0x7F80_0000 && at_least(
        valid,
        k,
        qpos,
        score,
        p,
    ).len() <= want by {
        lemma_len_subset(at_least(valid, k, qpos, score, p), all);
    }
}

/// Whether the ranking is clear does not depend on tokens behind the query.
pub proof fn lemma_ranking_ignores_later_tokens(
    valid: Seq<bool>,
    k: int,
    qpos: int,
    score: spec_fn(int) -> F32,
    want: nat,
)
    requires
        k > 0,
        0 <= qpos < valid.len(),
    ensures
        ranks_clearly(valid, k, qpos, score, want) == ranks_clearly(
            valid.take(qpos + 1),
            k,
            qpos,
            score,
            want,
        ),
{
    let cut = valid.take(qpos + 1);
    assert forall|p: int| 0 <= p implies #[trigger] candidate(valid, k, p, qpos) == candidate(
        cut,
        k,
        p,
        qpos,
    ) by {
        law_candidates_ignore_later_tokens(valid, k, p, qpos);
    }
    assert forall|p: int| #[trigger]
        better(valid, k, qpos, score, p) == better(cut, k, qpos, score, p) && at_least(
            valid,
            k,
            qpos,
            score,
            p,
        ) == at_least(cut, k, qpos, score, p) by {
        lemma_ranks_of_prefix(valid, k, qpos, score, p);
    }
    if ranks_clearly(valid, k, qpos, score, want) {
        assert forall|p: int| 0 <= p && #[trigger] candidate(cut, k, p, qpos) && better(
            cut,
            k,
            qpos,
            score,
            p,
        ).len() < want implies order_key(score(p)) > -0x7F80_0000 && at_least(
            cut,
            k,
            qpos,
            score,
            p,
        ).len() <= want by {
            assert(candidate(valid, k, p, qpos));
            assert(better(valid, k, qpos, score, p) == better(cut, k, qpos, score, p));
        }
    }
    if ranks_clearly(cut, k, qpos, score, want) {
        assert forall|p: int| 0 <= p && #[trigger] candidate(valid, k, p, qpos) && better(
            valid,
            k,
            qpos,
            score,
            p,
        ).len() < want implies order_key(score(p)) > -0x7F80_0000 && at_least(
            valid,
            k,
            qpos,
            score,
            p,
        ).len() <= want by {
            assert(candidate(cut, k, p, qpos));
            assert(better(valid, k, qpos, score, p) == better(cut, k, qpos, score, p));
        }
    }
}

/// Which candidates score higher, or as high, does not depend on tokens behind the query.
proof fn lemma_ranks_of_prefix(
    valid: Seq<bool>,
    k: int,
    qpos: int,
    score: spec_fn(int) -> F32,
    p: int,
)
    requires
        k > 0,
        0 <= qpos < valid.len(),
    ensures
        better(valid, k, qpos, score, p) == better(valid.take(qpos + 1), k, qpos, score, p),
        at_least(valid, k, qpos, score, p) == at_least(valid.take(qpos + 1), k, qpos, score, p),
{
    let cut = valid.take(qpos + 1);
    assert forall|q: int| 0 <= q implies #[trigger] candidate(valid, k, q, qpos) == candidate(
        cut,
        k,
        q,
        qpos,
    ) && (candidate(cut, k, q, qpos) ==> q <= cut.len()) by {
        law_candidates_ignore_later_tokens(valid, k, q, qpos);
        if candidate(cut, k, q, qpos) {
            lemma_candidate_bound(cut, k, q, qpos);
        }
    }
    assert(better(valid, k, qpos, score, p) =~= better(cut, k, qpos, score, p));
    assert(at_least(valid, k, qpos, score, p) =~= at_least(cut, k, qpos, score, p));
}

/// The pools of the chosen positions.
spec fn chosen_pools(keep: Seq<usize>, chosen: Seq<usize>) -> Seq<int> {
    Seq::new(chosen.len(), |i: int| keep[chosen[i] as int] as int)
}

/// A candidate lies within the sequence.
proof fn lemma_candidate_bound(valid: Seq<bool>, k: int, p: int, qpos: int)
    requires
        k > 0,
        p >= 0,
        candidate(valid, k, p, qpos),
    ensures
        p <= valid.len(),
{
    lemma_first_from(valid, 0);
    assert(pool_token(valid, k, p, 0) < valid.len());
    assert(p <= p * k) by (nonlinear_arith)
        requires
            p >= 0,
            k > 0,
    ;
}

/// A candidate is chosen exactly when fewer candidates score higher than a query
/// has room for.
proof fn lemma_chosen_iff_few_better(
    valid: Seq<bool>,
    k: int,
    qpos: int,
    keep: Seq<usize>,
    scores: Seq<F32>,
    score: spec_fn(int) -> F32,
    want: nat,
    chosen: Seq<usize>,
    s: int,
)
    requires
        k > 0,
        scored_by(valid, k, qpos, keep, scores, score),
        keep.len() <= want || ranks_clearly(valid, k, qpos, score, want),
        is_topk(
            masked_scores(valid, k, keep, scores, qpos),
            if want <= keep.len() {
                want
            } else {
                keep.len()
            },
            chosen,
        ),
        0 <= s < keep.len(),
        candidate(valid, k, keep[s] as int, qpos),
    ensures
        chosen.contains(s as usize) <==> better(valid, k, qpos, score, keep[s] as int).len() < want,
{
    let p = keep[s] as int;
    let masked = masked_scores(valid, k, keep, scores, qpos);
    let up = better(valid, k, qpos, score, p);
    let pools = chosen_pools(keep, chosen);
    let set = pools.to_set();
    lemma_int_range(0, valid.len() as int + 1);
    lemma_len_subset(up, set_int_range(0, valid.len() as int + 1));
    assert(pools.no_duplicates()) by {
        assert forall|i: int, j: int| 0 <= i < pools.len() && 0 <= j < pools.len() && i != j implies pools[i]
            != pools[j] by {
            let a = chosen[i] as int;
            let b = chosen[j] as int;
            if i < j {
                assert(chosen[i] != chosen[j]);
            } else {
                assert(chosen[j] != chosen[i]);
            }
            assert(0 <= a < keep.len() && 0 <= b < keep.len());
            if a < b {
                assert(keep[a] != keep[b]);
            } else {
                assert(keep[b] != keep[a]);
            }
        }
    }
    pools.unique_seq_to_set();
    vstd::seq_lib::seq_to_set_is_finite(pools);
    assert(masked[s] == scores[s] && scores[s] == score(p));
    if chosen.contains(s as usize) {
        let i = choose|i: int| 0 <= i < chosen.len() && chosen[i] == s as usize;
        assert(pools[i] == p);
        assert(set.contains(p));
        assert(!up.contains(p));
        assert forall|q: int| up.insert(p).contains(q) implies set.contains(q) by {
            if q != p {
                assert(keep.contains(q as usize));
                let t = choose|t: int| 0 <= t < keep.len() && keep[t] == q as usize;
                assert(masked[t] == scores[t] && scores[t] == score(q));
                if !chosen.contains(t as usize) {
                    assert(order_key(masked[t]) <= order_key(masked[chosen[i] as int]));
                }
                let u = choose|u: int| 0 <= u < chosen.len() && chosen[u] == t as usize;
                assert(pools[u] == q);
            }
        }
        lemma_len_subset(up.insert(p), set);
    } else {
        if chosen.len() == keep.len() {
            lemma_all_chosen(keep.len(), chosen, s);
        }
        if up.len() < want {
            // What is chosen scores at least as high as this pool, which is left out.
            let top = at_least(valid, k, qpos, score, p);
            lemma_len_subset(top, set_int_range(0, valid.len() as int + 1));
            assert(!set.contains(p)) by {
                if set.contains(p) {
                    let u = choose|u: int| 0 <= u < pools.len() && pools[u] == p;
                    let t = chosen[u] as int;
                    assert(chosen[u] < masked.len());
                    assert(keep[t] == keep[s]);
                    if t < s {
                        assert(keep[t] != keep[s]);
                    } else if s < t {
                        assert(keep[s] != keep[t]);
                    }
                    assert(chosen[u] == s as usize);
                }
            }
            assert forall|q: int| set.insert(p).contains(q) implies top.contains(q) by {
                if q != p {
                    let u = choose|u: int| 0 <= u < pools.len() && pools[u] == q;
                    let t = chosen[u] as int;
                    assert(chosen[u] < masked.len());
                    assert(order_key(masked[s]) <= order_key(masked[chosen[u] as int]));
                    // Anything masked out ranks at negative infinity, below this pool.
                    let low = F32 { bits: 0xFF80_0000 };
                    assert(order_key(low) == -0x7F80_0000);
                    assert(candidate(valid, k, keep[t] as int, qpos));
                    assert(masked[t] == scores[t] && scores[t] == score(q));
                    lemma_candidate_bound(valid, k, q, qpos);
                } else {
                    lemma_candidate_bound(valid, k, p, qpos);
                }
            }
            lemma_len_subset(set.insert(p), top);
        }
    }
}

/// Choosing as many positions as there are chooses them all.
pub proof fn lemma_all_chosen(n: nat, chosen: Seq<usize>, s: int)
    requires
        chosen.len() == n,
        n <= usize::MAX,
        forall|i: int| 0 <= i < n ==> #[trigger] chosen[i] < n,
        forall|i: int, j: int| 0 <= i < j < n ==> #[trigger] chosen[i] != #[trigger] chosen[j],
        0 <= s < n,
    ensures
        chosen.contains(s as usize),
{
    if !chosen.contains(s as usize) {
        let ids = Seq::new(n, |i: int| chosen[i] as int);
        assert(ids.no_duplicates()) by {
            assert forall|i: int, j: int|
                0 <= i < ids.len() && 0 <= j < ids.len() && i != j implies ids[i] != ids[j] by {
                if i < j {
                    assert(chosen[i] != chosen[j]);
                } else {
                    assert(chosen[j] != chosen[i]);
                }
            }
        }
        ids.unique_seq_to_set();
        vstd::seq_lib::seq_to_set_is_finite(ids);
        let all = set_int_range(0, n as int);
        lemma_int_range(0, n as int);
        assert(!ids.to_set().contains(s)) by {
            if ids.to_set().contains(s) {
                let i = choose|i: int| 0 <= i < ids.len() && ids[i] == s;
                assert(chosen[i] == s as usize);
            }
        }
        assert forall|x: int| ids.to_set().insert(s).contains(x) implies all.contains(x) by {
            if x != s {
                let i = choose|i: int| 0 <= i < ids.len() && ids[i] == x;
                assert(chosen[i] < n);
            }
        }
        lemma_len_subset(ids.to_set().insert(s), all);
    }
}

/// Token `j` belongs to pool `p`.
pub open spec fn in_pool(valid: Seq<bool>, k: int, p: int, j: int) -> bool {
    pool_token(valid, k, p, 0) <= j < pool_token(valid, k, p, 0) + k
}

/// Pool `p` is a candidate and among the `want` best ones.
pub open spec fn wins(
    valid: Seq<bool>,
    k: int,
    qpos: int,
    score: spec_fn(int) -> F32,
    want: nat,
    p: int,
) -> bool {
    0 <= p && candidate(valid, k, p, qpos) && better(valid, k, qpos, score, p).len() < want
}

/// Token `j` is in the tail of the query.
pub open spec fn in_tail(valid: Seq<bool>, k: int, qpos: int, j: int) -> bool {
    exists|off: int| 0 <= off < k - 1 && #[trigger] tail_token(valid, k, qpos, off) == j
}

/// Token `j` belongs to a winning pool.
pub open spec fn in_winner(
    valid: Seq<bool>,
    k: int,
    qpos: int,
    score: spec_fn(int) -> F32,
    want: nat,
    j: int,
) -> bool {
    exists|p: int| #[trigger] wins(valid, k, qpos, score, want, p) && in_pool(valid, k, p, j)
}

/// Where every listed pool fits, or it is clear which candidates are the best, a query
/// selects exactly the tokens of its best pools and of its tail.
pub proof fn law_selects_best_pools_and_tail(
    indexer: &Glm5NextTextIndexer,
    valid: Seq<bool>,
    keep: Seq<usize>,
    scores: Seq<F32>,
    qpos: int,
    out: Seq<i64>,
    score: spec_fn(int) -> F32,
    j: int,
)
    requires
        indexer.index_kpool > 0,
        indexer.selects(valid, keep, scores, qpos, true, out),
        scored_by(valid, indexer.index_kpool as int, qpos, keep, scores, score),
        keep.len() <= indexer.index_topk / indexer.index_kpool || ranks_clearly(
            valid,
            indexer.index_kpool as int,
            qpos,
            score,
            (indexer.index_topk / indexer.index_kpool) as nat,
        ),
        j >= 0,
    ensures
        picks(out, j) <==> in_winner(
            valid,
            indexer.index_kpool as int,
            qpos,
            score,
            (indexer.index_topk / indexer.index_kpool) as nat,
            j,
        ) || (indexer.always_select_tail && in_tail(valid, indexer.index_kpool as int, qpos, j)),
{
    let k = indexer.index_kpool as int;
    let want = (indexer.index_topk / indexer.index_kpool) as nat;
    let tail = indexer.always_select_tail;
    let chosen = choose|chosen: Seq<usize>|
        #[trigger] is_topk(
            masked_scores(valid, k, keep, scores, qpos),
            indexer.select_count(keep.len()),
            chosen,
        ) && forall|x: int|
            0 <= x < out.len() ==> #[trigger] out[x] == selected_token(
                valid,
                k,
                keep,
                chosen,
                qpos,
                tail,
                x,
            );
    let n = chosen.len() * k;
    lemma_fundamental_div_mod(indexer.index_topk as int, k);
    assert(0 <= n <= indexer.index_topk) by (nonlinear_arith)
        requires
            n == chosen.len() * k,
            chosen.len() <= want,
            indexer.index_topk == k * want + indexer.index_topk as int % k,
            0 <= indexer.index_topk as int % k,
            k > 0,
    ;
    if picks(out, j) {
        let x = choose|x: int| 0 <= x < out.len() && #[trigger] out[x] == j;
        if x < n {
            let i = x / k;
            lemma_fundamental_div_mod(x, k);
            assert(0 <= i < chosen.len()) by (nonlinear_arith)
                requires
                    x == k * i + x % k,
                    0 <= x % k < k,
                    0 <= x < chosen.len() * k,
                    k > 0,
            ;
            let s = chosen[i] as int;
            assert(chosen[i] < keep.len());
            let p = keep[s] as int;
            assert(candidate(valid, k, p, qpos));
            assert(chosen.contains(s as usize));
            lemma_chosen_iff_few_better(valid, k, qpos, keep, scores, score, want, chosen, s);
            assert(wins(valid, k, qpos, score, want, p));
            assert(in_pool(valid, k, p, j));
        } else {
            assert(tail_token(valid, k, qpos, x - n) == j);
        }
    }
    if in_winner(valid, k, qpos, score, want, j) {
        let p = choose|p: int| #[trigger]
            wins(valid, k, qpos, score, want, p) && in_pool(valid, k, p, j);
        assert(keep.contains(p as usize));
        let s = choose|s: int| 0 <= s < keep.len() && keep[s] == p as usize;
        lemma_chosen_iff_few_better(valid, k, qpos, keep, scores, score, want, chosen, s);
        let i = choose|i: int| 0 <= i < chosen.len() && chosen[i] == s as usize;
        let t = j - pool_token(valid, k, p, 0);
        let x = i * k + t;
        lemma_fundamental_div_mod_converse(x, k, i, t);
        assert(0 <= i * k && i * k + k <= n) by (nonlinear_arith)
            requires
                0 <= i < chosen.len(),
                n == chosen.len() * k,
                k > 0,
        ;
        assert(out[x] == selected_token(valid, k, keep, chosen, qpos, tail, x));
        assert(out[x] == j);
    }
    if tail && in_tail(valid, k, qpos, j) {
        let off = choose|off: int|
            0 <= off < k - 1 && #[trigger] tail_token(valid, k, qpos, off) == j;
        let x = n + off;
        assert(out[x] == selected_token(valid, k, keep, chosen, qpos, tail, x));
        assert(out[x] == j);
    }
}

/// Cached decoding attends to the tokens that one pass over the whole sequence
/// attends to: a query selects the same tokens whether or not later tokens are in
/// the cache, where its candidates score the same and either all listed pools fit or it is
/// clear which candidates are the best. A padding token selects nothing either way.
pub proof fn law_decode_selects_as_full_pass(
    indexer: &Glm5NextTextIndexer,
    valid: Seq<bool>,
    qpos: int,
    live: bool,
    keep_full: Seq<usize>,
    scores_full: Seq<F32>,
    out_full: Seq<i64>,
    keep_cut: Seq<usize>,
    scores_cut: Seq<F32>,
    out_cut: Seq<i64>,
    score: spec_fn(int) -> F32,
    j: int,
)
    requires
        indexer.index_kpool > 0,
        0 <= qpos < valid.len(),
        indexer.selects(valid, keep_full, scores_full, qpos, live, out_full),
        indexer.selects(valid.take(qpos + 1), keep_cut, scores_cut, qpos, live, out_cut),
        live ==> scored_by(valid, indexer.index_kpool as int, qpos, keep_full, scores_full, score),
        live ==> scored_by(
            valid.take(qpos + 1),
            indexer.index_kpool as int,
            qpos,
            keep_cut,
            scores_cut,
            score,
        ),
        live ==> (keep_full.len() <= indexer.index_topk / indexer.index_kpool && keep_cut.len()
            <= indexer.index_topk / indexer.index_kpool) || ranks_clearly(
            valid,
            indexer.index_kpool as int,
            qpos,
            score,
            (indexer.index_topk / indexer.index_kpool) as nat,
        ),
        j >= 0,
    ensures
        picks(out_full, j) == picks(out_cut, j),
{
    if live {
        let k = indexer.index_kpool as int;
        let want = (indexer.index_topk / indexer.index_kpool) as nat;
        let cut = valid.take(qpos + 1);
        lemma_ranking_ignores_later_tokens(valid, k, qpos, score, want);
        law_selects_best_pools_and_tail(
            indexer,
            valid,
            keep_full,
            scores_full,
            qpos,
            out_full,
            score,
            j,
        );
        law_selects_best_pools_and_tail(indexer, cut, keep_cut, scores_cut, qpos, out_cut, score, j);
        lemma_winners_ignore_later_tokens(valid, k, qpos, score, want, j);
    }
}

/// Which pools win and which tokens are in the tail does not depend on tokens behind the
/// query.
pub proof fn lemma_winners_ignore_later_tokens(
    valid: Seq<bool>,
    k: int,
    qpos: int,
    score: spec_fn(int) -> F32,
    want: nat,
    j: int,
)
    requires
        k > 0,
        0 <= qpos < valid.len(),
    ensures
        in_winner(valid, k, qpos, score, want, j) == in_winner(
            valid.take(qpos + 1),
            k,
            qpos,
            score,
            want,
            j,
        ),
        in_tail(valid, k, qpos, j) == in_tail(valid.take(qpos + 1), k, qpos, j),
{
    let cut = valid.take(qpos + 1);
    assert forall|p: int| 0 <= p implies #[trigger] candidate(valid, k, p, qpos) == candidate(
        cut,
        k,
        p,
        qpos,
    ) by {
        law_candidates_ignore_later_tokens(valid, k, p, qpos);
    }
    assert forall|p: int| 0 <= p implies #[trigger] wins(valid, k, qpos, score, want, p) == wins(
        cut,
        k,
        qpos,
        score,
        want,
        p,
    ) by {
        lemma_ranks_of_prefix(valid, k, qpos, score, p);
        assert(candidate(valid, k, p, qpos) == candidate(cut, k, p, qpos));
    }
    assert forall|p: int| #[trigger] wins(valid, k, qpos, score, want, p) implies in_pool(
        valid,
        k,
        p,
        j,
    ) == in_pool(cut, k, p, j) by {
        lemma_first_from(valid, 0);
        lemma_first_from(cut, 0);
        lemma_first_of_prefix(valid, qpos + 1, 0);
        assert(0 <= p * k) by (nonlinear_arith)
            requires
                p >= 0,
                k > 0,
        ;
        assert(first_valid(valid) <= qpos);
    }
    assert(in_winner(valid, k, qpos, score, want, j) == in_winner(cut, k, qpos, score, want, j)) by {
        if in_winner(valid, k, qpos, score, want, j) {
            let p = choose|p: int| #[trigger]
                wins(valid, k, qpos, score, want, p) && in_pool(valid, k, p, j);
            assert(wins(cut, k, qpos, score, want, p));
            assert(in_pool(cut, k, p, j));
        }
        if in_winner(cut, k, qpos, score, want, j) {
            let p = choose|p: int| #[trigger]
                wins(cut, k, qpos, score, want, p) && in_pool(cut, k, p, j);
            assert(wins(valid, k, qpos, score, want, p));
            assert(in_pool(valid, k, p, j));
        }
    }
    assert(in_tail(valid, k, qpos, j) == in_tail(cut, k, qpos, j)) by {
        assert forall|off: int| 0 <= off implies #[trigger] tail_token(valid, k, qpos, off)
            == tail_token(cut, k, qpos, off) by {
            law_tail_ignores_later_tokens(valid, k, qpos, off);
        }
        if in_tail(valid, k, qpos, j) {
            let off = choose|off: int|
                0 <= off < k - 1 && #[trigger] tail_token(valid, k, qpos, off) == j;
            assert(tail_token(cut, k, qpos, off) == j);
        }
        if in_tail(cut, k, qpos, j) {
            let off = choose|off: int|
                0 <= off < k - 1 && #[trigger] tail_token(cut, k, qpos, off) == j;
            assert(tail_token(valid, k, qpos, off) == j);
        }
    }
}

/// The kept pools of a cache list every candidate of each of its queries, once.
pub proof fn law_kept_pools_list_candidates(
    keys: Seq<Seq<bool>>,
    len: int,
    k: int,
    b: int,
    qpos: int,
    p: int,
)
    requires
        k > 0,
        0 <= len <= isize::MAX,
        0 <= b < keys.len(),
        keys[b].len() == len,
        p >= 0,
        candidate(keys[b], k, p, qpos),
    ensures
        listed_once(kept_pools(keys, len, k)),
        p <= usize::MAX,
        kept_pools(keys, len, k).contains(p as usize),
{
    let n = (len + k - 1) / k;
    let flags = Seq::new(n as nat, |q: int| complete_somewhere(keys, k, q));
    lemma_first_from(keys[b], 0);
    assert(pool_token(keys[b], k, p, 0) < len);
    lemma_fundamental_div_mod(len + k - 1, k);
    assert(p < n && n <= len) by (nonlinear_arith)
        requires
            k > 0,
            p >= 0,
            p * k < len,
            len + k - 1 == k * n + (len + k - 1) % k,
            0 <= (len + k - 1) % k < k,
    ;
    assert(pool_complete(keys[b], k, p));
    assert(flags[p]);
    law_indices_where(flags, n as nat);
}

} // verus!
