//! Sparse token selection: visibility, pools of keys and the incomplete tail.
//!
//! Keys are grouped into pools of `k` consecutive tokens, counted from the first
//! valid token. A query selects whole pools by score, and the visible tokens behind
//! the last complete pool are its tail.

use vstd::arithmetic::div_mod::{lemma_fundamental_div_mod, lemma_fundamental_div_mod_converse};
use vstd::prelude::*;

use crate::float::F32;

verus! {

/// Token `j` is a real token at or before the query position.
pub open spec fn visible(valid: Seq<bool>, qpos: int, j: int) -> bool {
    0 <= j < valid.len() && j <= qpos && valid[j]
}

/// The first valid position at or after `i`, or the length.
pub open spec fn first_from(valid: Seq<bool>, i: int) -> int
    decreases valid.len() - i,
{
    if i >= valid.len() || valid[i] {
        i
    } else {
        first_from(valid, i + 1)
    }
}

/// The position of the first valid token, or the length where there is none.
pub open spec fn first_valid(valid: Seq<bool>) -> int {
    first_from(valid, 0)
}

/// Token `t` of pool `p`.
pub open spec fn pool_token(valid: Seq<bool>, k: int, p: int, t: int) -> int {
    first_valid(valid) + p * k + t
}

/// Every token of pool `p` exists and is valid.
pub open spec fn pool_complete(valid: Seq<bool>, k: int, p: int) -> bool {
    forall|t: int|
        0 <= t < k ==> #[trigger] pool_token(valid, k, p, t) < valid.len() && valid[pool_token(
            valid,
            k,
            p,
            t,
        )]
}

/// A query may select pool `p`: it is complete and its last token is visible.
pub open spec fn candidate(valid: Seq<bool>, k: int, p: int, qpos: int) -> bool {
    pool_complete(valid, k, p) && visible(valid, qpos, pool_token(valid, k, p, k - 1))
}

/// How many of the first `upto` tokens are visible.
pub open spec fn visible_count(valid: Seq<bool>, qpos: int, upto: int) -> int
    decreases upto,
{
    if upto <= 0 {
        0
    } else {
        visible_count(valid, qpos, upto - 1) + if visible(valid, qpos, upto - 1) {
            1int
        } else {
            0
        }
    }
}

/// Where the tail of a query starts: behind its last whole run of `k` visible
/// tokens.
pub open spec fn tail_start(valid: Seq<bool>, k: int, qpos: int) -> int {
    let count = visible_count(valid, qpos, valid.len() as int);
    first_valid(valid) + count - count % k
}

/// The tail token at offset `off`, or -1 where the tail ends before it.
pub open spec fn tail_token(valid: Seq<bool>, k: int, qpos: int, off: int) -> int {
    let count = visible_count(valid, qpos, valid.len() as int);
    let idx = tail_start(valid, k, qpos) + off;
    if off < count % k && visible(valid, qpos, idx) {
        idx
    } else {
        -1
    }
}

/// Entry `x` of a query's selection: the tokens of the chosen pools, each pool's
/// in order and -1 for a pool that is no candidate, then the tail, then -1.
pub open spec fn selected_token(
    valid: Seq<bool>,
    k: int,
    keep: Seq<usize>,
    chosen: Seq<usize>,
    qpos: int,
    tail: bool,
    x: int,
) -> int {
    if x < chosen.len() * k {
        let p = keep[chosen[x / k] as int] as int;
        if candidate(valid, k, p, qpos) {
            pool_token(valid, k, p, x % k)
        } else {
            -1
        }
    } else if tail && x < chosen.len() * k + k - 1 {
        tail_token(valid, k, qpos, x - chosen.len() * k)
    } else {
        -1
    }
}

/// The first valid position bounds and is valid.
pub proof fn lemma_first_from(valid: Seq<bool>, i: int)
    requires
        0 <= i <= valid.len(),
    ensures
        i <= first_from(valid, i) <= valid.len(),
        first_from(valid, i) < valid.len() ==> valid[first_from(valid, i)],
        forall|j: int| i <= j < first_from(valid, i) ==> !#[trigger] valid[j],
    decreases valid.len() - i,
{
    if i < valid.len() && !valid[i] {
        lemma_first_from(valid, i + 1);
    }
}

/// No more tokens are visible than lie behind the first valid one.
pub proof fn lemma_count_bound(valid: Seq<bool>, qpos: int, upto: int)
    requires
        0 <= upto <= valid.len(),
    ensures
        0 <= visible_count(valid, qpos, upto),
        first_valid(valid) <= upto ==> first_valid(valid) + visible_count(valid, qpos, upto) <= upto,
        first_valid(valid) >= upto ==> visible_count(valid, qpos, upto) == 0,
        qpos >= 0 ==> visible_count(valid, qpos, upto) <= qpos + 1,
    decreases upto,
{
    lemma_first_from(valid, 0);
    if upto > 0 {
        lemma_count_bound(valid, qpos, upto - 1);
    }
}

/// The first valid position.
pub fn first_key(valid: &Vec<bool>) -> (r: usize)
    ensures
        r == first_valid(valid@),
        r <= valid@.len(),
{
    let mut i: usize = 0;
    while i < valid.len()
        invariant
            i <= valid@.len(),
            first_valid(valid@) == first_from(valid@, i as int),
        decreases valid@.len() - i,
    {
        if valid[i] {
            return i;
        }
        i = i + 1;
    }
    i
}

/// Whether every token of pool `p` exists and is valid.
pub fn pool_is_complete(valid: &Vec<bool>, first: usize, k: usize, p: usize) -> (r: bool)
    requires
        first == first_valid(valid@),
        first + p * k + k <= usize::MAX,
    ensures
        r == pool_complete(valid@, k as int, p as int),
{
    proof {
        assert(0 <= p * k) by (nonlinear_arith)
            requires
                p >= 0,
                k >= 0,
        ;
    }
    let start: usize = first + p * k;
    let mut t: usize = 0;
    while t < k
        invariant
            t <= k,
            start == first + p * k,
            start + k <= usize::MAX,
            first == first_valid(valid@),
            forall|a: int|
                0 <= a < t ==> #[trigger] pool_token(valid@, k as int, p as int, a) < valid@.len()
                    && valid@[pool_token(valid@, k as int, p as int, a)],
        decreases k - t,
    {
        proof {
            assert(pool_token(valid@, k as int, p as int, t as int) == start + t);
        }
        if start + t >= valid.len() || !valid[start + t] {
            return false;
        }
        t = t + 1;
    }
    true
}

/// Whether token `j` is visible to a query.
pub fn is_visible(valid: &Vec<bool>, qpos: usize, j: usize) -> (r: bool)
    ensures
        r == visible(valid@, qpos as int, j as int),
{
    j < valid.len() && j <= qpos && valid[j]
}

/// Counts the tokens that are visible to a query.
pub fn count_visible(valid: &Vec<bool>, qpos: usize) -> (r: usize)
    ensures
        r == visible_count(valid@, qpos as int, valid@.len() as int),
        r <= valid@.len(),
{
    let mut n: usize = 0;
    let mut j: usize = 0;
    while j < valid.len()
        invariant
            j <= valid@.len(),
            n == visible_count(valid@, qpos as int, j as int),
            n <= j,
        decreases valid@.len() - j,
    {
        if is_visible(valid, qpos, j) {
            n = n + 1;
        }
        j = j + 1;
    }
    n
}

/// The tail tokens of a query: `k - 1` entries, -1 behind the last tail token.
pub fn append_visible_tail(row: &mut Vec<i64>, valid: &Vec<bool>, first: usize, k: usize, qpos: usize)
    requires
        k > 0,
        first == first_valid(valid@),
        2 * valid@.len() + k <= isize::MAX,
    ensures
        final(row)@.len() == old(row)@.len() + k - 1,
        forall|x: int| 0 <= x < old(row)@.len() ==> #[trigger] final(row)@[x] == old(row)@[x],
        forall|x: int|
            old(row)@.len() <= x < final(row)@.len() ==> #[trigger] final(row)@[x] == tail_token(
                valid@,
                k as int,
                qpos as int,
                x - old(row)@.len(),
            ),
{
    let count: usize = count_visible(valid, qpos);
    let tail: usize = count % k;
    proof {
        lemma_first_from(valid@, 0);
        vstd::arithmetic::div_mod::lemma_mod_decreases(count as nat, k as nat);
    }
    let len: usize = valid.len();
    let start: usize = first + (count - tail);
    let ghost before = row@;
    let mut off: usize = 0;
    while off < k - 1
        invariant
            k > 0,
            off <= k - 1,
            len == valid@.len(),
            first == first_valid(valid@),
            first <= len,
            2 * len + k <= isize::MAX,
            count <= len,
            count == visible_count(valid@, qpos as int, valid@.len() as int),
            tail == count % k,
            tail <= count,
            start == first + (count - tail),
            row@.len() == before.len() + off,
            forall|x: int| 0 <= x < before.len() ==> #[trigger] row@[x] == before[x],
            forall|x: int|
                before.len() <= x < row@.len() ==> #[trigger] row@[x] == tail_token(
                    valid@,
                    k as int,
                    qpos as int,
                    x - before.len(),
                ),
        decreases k - off,
    {
        let idx: usize = start + off;
        if off < tail && is_visible(valid, qpos, idx) {
            row.push(idx as i64);
        } else {
            row.push(-1);
        }
        off = off + 1;
    }
}

/// The tokens of the chosen pools, -1 for a pool that is no candidate.
pub fn expand_pools(
    valid: &Vec<bool>,
    first: usize,
    k: usize,
    keep: &Vec<usize>,
    chosen: &Vec<usize>,
    qpos: usize,
) -> (row: Vec<i64>)
    requires
        k > 0,
        first == first_valid(valid@),
        2 * valid@.len() + k <= isize::MAX,
        chosen@.len() * k <= usize::MAX,
        forall|i: int| 0 <= i < chosen@.len() ==> #[trigger] chosen@[i] < keep@.len(),
        forall|s: int| 0 <= s < keep@.len() ==> (#[trigger] keep@[s]) * k <= valid@.len(),
    ensures
        row@.len() == chosen@.len() * k,
        forall|x: int|
            0 <= x < row@.len() ==> #[trigger] row@[x] == selected_token(
                valid@,
                k as int,
                keep@,
                chosen@,
                qpos as int,
                false,
                x,
            ),
{
    let total: usize = chosen.len() * k;
    let len: usize = valid.len();
    let mut row: Vec<i64> = Vec::with_capacity(total);
    let mut i: usize = 0;
    proof {
        lemma_first_from(valid@, 0);
    }
    while i < chosen.len()
        invariant
            k > 0,
            i <= chosen@.len(),
            total == chosen@.len() * k,
            len == valid@.len(),
            first == first_valid(valid@),
            first <= len,
            2 * len + k <= isize::MAX,
            forall|i: int| 0 <= i < chosen@.len() ==> #[trigger] chosen@[i] < keep@.len(),
            forall|s: int| 0 <= s < keep@.len() ==> (#[trigger] keep@[s]) * k <= valid@.len(),
            row@.len() == i * k,
            forall|x: int|
                0 <= x < row@.len() ==> #[trigger] row@[x] == selected_token(
                    valid@,
                    k as int,
                    keep@,
                    chosen@,
                    qpos as int,
                    false,
                    x,
                ),
        decreases chosen@.len() - i,
    {
        let s: usize = chosen[i];
        let p: usize = keep[s];
        proof {
            assert(keep@[s as int] * k <= valid@.len());
            assert(0 <= p * k) by (nonlinear_arith)
                requires
                    p >= 0,
                    k >= 0,
            ;
            assert(i * k + k <= total) by (nonlinear_arith)
                requires
                    i < chosen@.len(),
                    total == chosen@.len() * k,
                    k > 0,
            ;
        }
        let start: usize = first + p * k;
        let open: bool = pool_is_complete(valid, first, k, p) && is_visible(
            valid,
            qpos,
            start + (k - 1),
        );
        proof {
            assert(pool_token(valid@, k as int, p as int, k - 1) == start + (k - 1));
            assert(open == candidate(valid@, k as int, p as int, qpos as int));
        }
        let mut t: usize = 0;
        while t < k
            invariant
                k > 0,
                t <= k,
                i < chosen@.len(),
                total == chosen@.len() * k,
                i * k + k <= total,
                len == valid@.len(),
                first == first_valid(valid@),
                first <= len,
                2 * len + k <= isize::MAX,
                s == chosen@[i as int],
                p == keep@[s as int],
                p * k <= len,
                start == first + p * k,
                open == candidate(valid@, k as int, p as int, qpos as int),
                row@.len() == i * k + t,
                forall|x: int|
                    0 <= x < row@.len() ==> #[trigger] row@[x] == selected_token(
                        valid@,
                        k as int,
                        keep@,
                        chosen@,
                        qpos as int,
                        false,
                        x,
                    ),
            decreases k - t,
        {
            proof {
                let x = i * k + t;
                assert(0 <= i * k) by (nonlinear_arith)
                    requires
                        i >= 0,
                        k >= 0,
                ;
                lemma_fundamental_div_mod_converse(x, k as int, i as int, t as int);
                assert(x < chosen@.len() * k);
                assert(pool_token(valid@, k as int, p as int, t as int) == start + t);
            }
            if open {
                row.push((start + t) as i64);
            } else {
                row.push(-1);
            }
            t = t + 1;
        }
        proof {
            assert(i * k + k == (i + 1) * k) by (nonlinear_arith);
        }
        i = i + 1;
    }
    row
}

/// Brings a row to the given width: -1 behind the last entry, or cut off.
pub fn fit_width(row: &mut Vec<i64>, width: usize)
    ensures
        final(row)@.len() == width,
        forall|x: int|
            0 <= x < width ==> #[trigger] final(row)@[x] == (if x < old(row)@.len() {
                old(row)@[x] as int
            } else {
                -1
            }),
{
    let ghost before = row@;
    if row.len() > width {
        row.truncate(width);
    }
    while row.len() < width
        invariant
            row@.len() <= width,
            before.len() <= width ==> before.len() <= row@.len(),
            before.len() > width ==> row@.len() == width,
            forall|x: int|
                0 <= x < row@.len() ==> #[trigger] row@[x] == (if x < before.len() {
                    before[x] as int
                } else {
                    -1
                }),
        decreases width - row@.len(),
    {
        row.push(-1);
    }
}

/// Selection is causal: whatever a query selects is a valid token at or before it.
pub proof fn law_selected_tokens_are_visible(
    valid: Seq<bool>,
    k: int,
    keep: Seq<usize>,
    chosen: Seq<usize>,
    qpos: int,
    tail: bool,
    x: int,
)
    requires
        k > 0,
        0 <= x,
    ensures
        ({
            let j = selected_token(valid, k, keep, chosen, qpos, tail, x);
            j == -1 || visible(valid, qpos, j)
        }),
{
    lemma_first_from(valid, 0);
    if x < chosen.len() * k {
        let p = keep[chosen[x / k] as int] as int;
        if candidate(valid, k, p, qpos) {
            let t = x % k;
            lemma_fundamental_div_mod(x, k);
            assert(pool_token(valid, k, p, t) < valid.len() && valid[pool_token(valid, k, p, t)]);
            assert(0 <= p * k) by (nonlinear_arith)
                requires
                    p >= 0,
                    k > 0,
            ;
        }
    }
}

/// With every token valid, each visible token behind the last whole pool is in the
/// tail, so a query always selects its most recent tokens.
pub proof fn law_tail_holds_recent_tokens(valid: Seq<bool>, k: int, qpos: int, j: int)
    requires
        k > 0,
        0 <= qpos < valid.len(),
        forall|i: int| 0 <= i < valid.len() ==> #[trigger] valid[i],
        ((qpos + 1) / k) * k <= j <= qpos,
    ensures
        0 <= j - ((qpos + 1) / k) * k < k - 1,
        tail_token(valid, k, qpos, j - ((qpos + 1) / k) * k) == j,
{
    lemma_all_valid_count(valid, qpos, valid.len() as int);
    assert(first_valid(valid) == 0);
    let count = qpos + 1;
    lemma_fundamental_div_mod(count, k);
    let q = count / k;
    assert(q * k == k * q) by (nonlinear_arith);
    assert(valid[j]);
}

proof fn lemma_all_valid_count(valid: Seq<bool>, qpos: int, upto: int)
    requires
        0 <= qpos < valid.len(),
        0 <= upto <= valid.len(),
        forall|i: int| 0 <= i < valid.len() ==> #[trigger] valid[i],
    ensures
        visible_count(valid, qpos, upto) == if upto <= qpos + 1 {
            upto
        } else {
            qpos + 1
        },
    decreases upto,
{
    if upto > 0 {
        lemma_all_valid_count(valid, qpos, upto - 1);
        assert(valid[upto - 1]);
    }
}

/// What a query may select does not depend on tokens behind it: the same pools are
/// candidates whether or not later tokens are in the cache.
pub proof fn law_candidates_ignore_later_tokens(valid: Seq<bool>, k: int, p: int, qpos: int)
    requires
        k > 0,
        p >= 0,
        0 <= qpos < valid.len(),
    ensures
        candidate(valid, k, p, qpos) == candidate(valid.take(qpos + 1), k, p, qpos),
{
    let cut = valid.take(qpos + 1);
    lemma_first_from(valid, 0);
    lemma_first_from(cut, 0);
    lemma_first_of_prefix(valid, qpos + 1, 0);
    assert(0 <= p * k) by (nonlinear_arith)
        requires
            p >= 0,
            k > 0,
    ;
    if candidate(valid, k, p, qpos) {
        let last = pool_token(valid, k, p, k - 1);
        assert(first_valid(valid) <= qpos);
        assert forall|t: int| 0 <= t < k implies #[trigger] pool_token(cut, k, p, t) < cut.len()
            && cut[pool_token(cut, k, p, t)] by {
            assert(pool_token(valid, k, p, t) < valid.len() && valid[pool_token(valid, k, p, t)]);
        }
    }
    if candidate(cut, k, p, qpos) {
        let last = pool_token(cut, k, p, k - 1);
        assert(first_valid(cut) < cut.len());
        assert forall|t: int| 0 <= t < k implies #[trigger] pool_token(valid, k, p, t)
            < valid.len() && valid[pool_token(valid, k, p, t)] by {
            assert(pool_token(cut, k, p, t) < cut.len() && cut[pool_token(cut, k, p, t)]);
        }
    }
}

/// The first valid token of a prefix is that of the whole, where the prefix has one.
pub proof fn lemma_first_of_prefix(valid: Seq<bool>, n: int, i: int)
    requires
        0 <= i <= n <= valid.len(),
    ensures
        first_from(valid, i) < n ==> first_from(valid.take(n), i) == first_from(valid, i),
        first_from(valid.take(n), i) < n ==> first_from(valid.take(n), i) == first_from(valid, i),
    decreases n - i,
{
    lemma_first_from(valid, i);
    if i < n && !valid[i] {
        lemma_first_of_prefix(valid, n, i + 1);
    }
}

/// Nor does its tail.
pub proof fn law_tail_ignores_later_tokens(valid: Seq<bool>, k: int, qpos: int, off: int)
    requires
        k > 0,
        off >= 0,
        0 <= qpos < valid.len(),
    ensures
        tail_token(valid, k, qpos, off) == tail_token(valid.take(qpos + 1), k, qpos, off),
{
    let cut = valid.take(qpos + 1);
    lemma_first_from(valid, 0);
    lemma_first_from(cut, 0);
    lemma_first_of_prefix(valid, qpos + 1, 0);
    lemma_count_of_prefix(valid, qpos, qpos + 1);
    lemma_count_stops(valid, qpos, valid.len() as int);
    lemma_count_bound(cut, qpos, qpos + 1);
    let count = visible_count(cut, qpos, qpos + 1);
    if first_valid(cut) >= qpos + 1 {
        assert(count == 0);
    }
    lemma_fundamental_div_mod(count, k);
}

proof fn lemma_count_of_prefix(valid: Seq<bool>, qpos: int, upto: int)
    requires
        0 <= qpos < valid.len(),
        0 <= upto <= qpos + 1,
    ensures
        visible_count(valid.take(qpos + 1), qpos, upto) == visible_count(valid, qpos, upto),
    decreases upto,
{
    if upto > 0 {
        lemma_count_of_prefix(valid, qpos, upto - 1);
    }
}

proof fn lemma_count_stops(valid: Seq<bool>, qpos: int, upto: int)
    requires
        0 <= qpos < valid.len(),
        qpos + 1 <= upto <= valid.len(),
    ensures
        visible_count(valid, qpos, upto) == visible_count(valid, qpos, qpos + 1),
    decreases upto,
{
    if upto > qpos + 1 {
        lemma_count_stops(valid, qpos, upto - 1);
    }
}

/// A number above zero, as a mask value of a real token is.
pub open spec fn positive(v: F32) -> bool {
    !v.is_nan() && !v.neg() && v.rest() > 0
}

/// Whether a mask value marks a real token.
pub fn is_positive(v: F32) -> (r: bool)
    ensures
        r == positive(v),
{
    let m: u32 = v.magnitude_bits();
    m <= crate::float::INF_REST && !v.is_negative() && m > 0
}

/// A query sees every real token up to its own position, and nothing behind it.
pub proof fn law_visibility(valid: Seq<bool>, qpos: int, j: int)
    requires
        0 <= j < valid.len(),
    ensures
        j <= qpos && valid[j] ==> visible(valid, qpos, j),
        j > qpos || !valid[j] ==> !visible(valid, qpos, j),
{
}

/// Pools are counted from the first real token of a sequence: nothing before it is real,
/// and it is, unless the sequence is all padding.
pub proof fn law_first_valid(valid: Seq<bool>, j: int)
    requires
        0 <= j < valid.len(),
    ensures
        0 <= first_valid(valid) <= valid.len(),
        j < first_valid(valid) ==> !valid[j],
        j == first_valid(valid) ==> valid[j],
{
    lemma_first_from(valid, 0);
}

/// Pools are runs of `k` tokens that lie back to back from the first real token on: token
/// `j` behind it is token `j % k` of pool `j / k`.
pub proof fn law_pools_lie_back_to_back(valid: Seq<bool>, k: int, j: int)
    requires
        k > 0,
        0 <= j,
    ensures
        pool_token(valid, k, j / k, j % k) == first_valid(valid) + j,
{
    lemma_fundamental_div_mod(j, k);
    let q = j / k;
    assert(q * k == k * q) by (nonlinear_arith);
}

/// A pool is a candidate exactly where all of its tokens are real and visible.
pub proof fn law_candidates_are_wholly_visible(valid: Seq<bool>, k: int, p: int, qpos: int)
    requires
        k > 0,
        0 <= p,
    ensures
        candidate(valid, k, p, qpos) <==> forall|t: int|
            0 <= t < k ==> visible(valid, qpos, #[trigger] pool_token(valid, k, p, t)),
{
    lemma_first_from(valid, 0);
    assert(0 <= p * k) by (nonlinear_arith)
        requires
            p >= 0,
            k > 0,
    ;
    if forall|t: int| 0 <= t < k ==> visible(valid, qpos, #[trigger] pool_token(valid, k, p, t)) {
        assert(visible(valid, qpos, pool_token(valid, k, p, k - 1)));
        assert forall|t: int| 0 <= t < k implies #[trigger] pool_token(valid, k, p, t)
            < valid.len() && valid[pool_token(valid, k, p, t)] by {
            assert(visible(valid, qpos, pool_token(valid, k, p, t)));
        }
    }
}

/// The visible tokens are counted one by one, and those behind the query not at all.
pub proof fn law_visible_tokens_are_counted(valid: Seq<bool>, qpos: int, upto: int)
    requires
        0 <= upto <= valid.len(),
    ensures
        Set::new(|j: int| 0 <= j < upto && j <= qpos && valid[j]).finite(),
        visible_count(valid, qpos, upto) == Set::new(
            |j: int| 0 <= j < upto && j <= qpos && valid[j],
        ).len(),
    decreases upto,
{
    let all = Set::new(|j: int| 0 <= j < upto && j <= qpos && valid[j]);
    if upto == 0 {
        assert(all =~= Set::empty());
    } else {
        law_visible_tokens_are_counted(valid, qpos, upto - 1);
        let prev = Set::new(|j: int| 0 <= j < upto - 1 && j <= qpos && valid[j]);
        if upto - 1 <= qpos && valid[upto - 1] {
            assert(all =~= prev.insert(upto - 1));
            assert(!prev.contains(upto - 1));
        } else {
            assert(all =~= prev);
        }
    }
}

/// A mask value marks a real token exactly where it is a number above zero.
pub proof fn law_positive_values(v: F32)
    ensures
        positive(v) <==> !v.is_nan() && v.value() > 0,
{
    crate::float::lemma_mag_zero(v.rest());
}

/// Behind padding the tail is the same, counted from the first real token: where the tokens
/// from `first` on are real and none before is, every visible token behind the last whole
/// pool is in the tail.
pub proof fn law_tail_behind_padding(valid: Seq<bool>, k: int, first: int, qpos: int, j: int)
    requires
        k > 0,
        0 <= first <= qpos < valid.len(),
        forall|i: int| 0 <= i < valid.len() ==> (#[trigger] valid[i] <==> i >= first),
        first + ((qpos + 1 - first) / k) * k <= j <= qpos,
    ensures
        0 <= j - first - ((qpos + 1 - first) / k) * k < k - 1,
        tail_token(valid, k, qpos, j - first - ((qpos + 1 - first) / k) * k) == j,
{
    lemma_padded_count(valid, first, qpos, valid.len() as int);
    lemma_first_from(valid, 0);
    let f = first_valid(valid);
    assert(valid[first]);
    if f < first {
        assert(!valid[f]);
    }
    if first < f {
        assert(!valid[first]);
    }
    let count = qpos + 1 - first;
    lemma_fundamental_div_mod(count, k);
    let q = count / k;
    assert(q * k == k * q) by (nonlinear_arith);
    assert(valid[j]);
}

proof fn lemma_padded_count(valid: Seq<bool>, first: int, qpos: int, upto: int)
    requires
        0 <= first <= qpos < valid.len(),
        0 <= upto <= valid.len(),
        forall|i: int| 0 <= i < valid.len() ==> (#[trigger] valid[i] <==> i >= first),
    ensures
        visible_count(valid, qpos, upto) == if upto <= first {
            0
        } else if upto <= qpos + 1 {
            upto - first
        } else {
            qpos + 1 - first
        },
    decreases upto,
{
    if upto > 0 {
        lemma_padded_count(valid, first, qpos, upto - 1);
        assert(valid[upto - 1] <==> upto - 1 >= first);
    }
}

} // verus!
