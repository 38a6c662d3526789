//! Ranking of scores: the largest elements of a row.

use vstd::prelude::*;

use crate::error::LmError;
use crate::float::{lemma_mag_increases, lemma_mag_zero, F32};

verus! {

/// The error of the tensor crate.
#[verifier::external_type_specification]
#[verifier::external_body]
pub struct ExCandleError(candle_core::Error);

/// `order` lists the positions of `keys` once each, from a largest key to a
/// smallest.
pub open spec fn sorts_descending(keys: Seq<i64>, order: Seq<u32>) -> bool {
    &&& order.len() == keys.len()
    &&& forall|i: int| 0 <= i < order.len() ==> #[trigger] order[i] < keys.len()
    &&& forall|i: int, j: int|
        0 <= i < j < order.len() ==> #[trigger] order[i] != #[trigger] order[j]
    &&& forall|a: int| 0 <= a < keys.len() ==> #[trigger] order.contains(a as u32)
    &&& forall|i: int, j: int|
        0 <= i < j < order.len() ==> keys[#[trigger] order[i] as int] >= keys[#[trigger] order[j] as int]
}

/// `candle_core::Tensor::arg_sort_last_dim(false)` on a one-dimensional CPU tensor
/// of the keys, read back with `to_vec1`.
///
/// Claimed: on a non-empty row it succeeds and gives the positions of the row, each
/// once, in descending order of their keys. The order of equal keys is left open,
/// as the crate leaves it. An empty row is left out: its chunked iteration panics
/// there; so are rows whose positions do not fit in 32 bits.
#[verifier::external_body]
fn arg_sort_descending(keys: &Vec<i64>) -> (r: Result<Vec<u32>, candle_core::Error>)
    requires
        0 < keys@.len() <= u32::MAX,
    ensures
        r is Ok,
        r is Ok ==> sorts_descending(keys@, r->Ok_0@),
{
    candle_core::Tensor::from_slice(keys.as_slice(), keys.len(), &candle_core::Device::Cpu)?
        .arg_sort_last_dim(false)?
        .to_vec1::<u32>()
}

/// The integer by which a number that is not NaN is ordered; both zeros have
/// the same.
pub open spec fn order_key(v: F32) -> int {
    if v.neg() {
        -(v.rest() as int)
    } else {
        v.rest() as int
    }
}

/// Keys order numbers by value, infinities at the ends.
pub proof fn law_order_key(a: F32, b: F32)
    requires
        !a.is_nan(),
        !b.is_nan(),
    ensures
        order_key(a) <= order_key(b) <==> a.value() <= b.value(),
{
    lemma_mag_zero(a.rest());
    lemma_mag_zero(b.rest());
    if a.rest() < b.rest() {
        lemma_mag_increases(a.rest(), b.rest());
    } else if b.rest() < a.rest() {
        lemma_mag_increases(b.rest(), a.rest());
    }
}

/// `chosen` are the positions of `k` largest scores, from a largest to a smallest.
pub open spec fn is_topk(scores: Seq<F32>, k: nat, chosen: Seq<usize>) -> bool {
    &&& chosen.len() == k
    &&& forall|i: int| 0 <= i < k ==> #[trigger] chosen[i] < scores.len()
    &&& forall|i: int, j: int| 0 <= i < j < k ==> #[trigger] chosen[i] != #[trigger] chosen[j]
    &&& forall|i: int, j: int|
        0 <= i < j < k ==> order_key(scores[#[trigger] chosen[i] as int]) >= order_key(
            scores[#[trigger] chosen[j] as int],
        )
    &&& forall|a: int, i: int|
        0 <= a < scores.len() && 0 <= i < k && !#[trigger] chosen.contains(a as usize) ==> order_key(
            scores[a],
        ) <= order_key(scores[#[trigger] chosen[i] as int])
}

pub open spec fn no_nan(scores: Seq<F32>) -> bool {
    forall|i: int| 0 <= i < scores.len() ==> !(#[trigger] scores[i]).is_nan()
}

/// Positions of the `k` largest scores of a row, descending.
pub fn topk_last_dim(scores: &Vec<F32>, k: usize) -> (r: Result<Vec<usize>, LmError>)
    requires
        no_nan(scores@),
        scores@.len() <= u32::MAX,
    ensures
        k > scores@.len() ==> r == Err::<Vec<usize>, LmError>(
            LmError::TopkWidth { k, len: scores@.len() as usize },
        ),
        k <= scores@.len() ==> r is Ok && is_topk(scores@, k as nat, r->Ok_0@),
{
    let n: usize = scores.len();
    if k > n {
        return Err(LmError::TopkWidth { k, len: n });
    }
    let mut chosen: Vec<usize> = Vec::with_capacity(k);
    if n == 0 {
        return Ok(chosen);
    }
    let mut keys: Vec<i64> = Vec::with_capacity(n);
    let mut i: usize = 0;
    while i < n
        invariant
            i <= n,
            n == scores@.len(),
            keys@.len() == i,
            forall|a: int| 0 <= a < i ==> #[trigger] keys@[a] == order_key(scores@[a]),
        decreases n - i,
    {
        let v: F32 = scores[i];
        let m: i64 = v.magnitude_bits() as i64;
        keys.push(
            if v.is_negative() {
                -m
            } else {
                m
            },
        );
        i = i + 1;
    }
    let order: Vec<u32> = match arg_sort_descending(&keys) {
        Ok(o) => o,
        Err(_) => {
            return Err(LmError::Sort);
        },
    };
    let mut j: usize = 0;
    while j < k
        invariant
            j <= k,
            k <= n,
            n == scores@.len(),
            keys@.len() == n,
            sorts_descending(keys@, order@),
            chosen@.len() == j,
            forall|a: int| 0 <= a < j ==> #[trigger] chosen@[a] == order@[a],
        decreases k - j,
    {
        chosen.push(order[j] as usize);
        j = j + 1;
    }
    proof {
        assert forall|a: int, i: int|
            0 <= a < n && 0 <= i < k && !#[trigger] chosen@.contains(a as usize) implies order_key(
            scores@[a],
        ) <= order_key(scores@[#[trigger] chosen@[i] as int]) by {
            assert(order@.contains(a as u32));
            let p = choose|p: int| 0 <= p < order@.len() && order@[p] == a as u32;
            if p < k {
                assert(chosen@[p] == a as usize);
            }
            assert(order@[i] < n && order@[p] == a);
        }
    }
    Ok(chosen)
}

/// The chosen positions hold the largest numbers, largest first: they differ, none of the
/// numbers left out is above any of them, and each is at least as large as the next.
pub proof fn law_topk_takes_the_largest(
    scores: Seq<F32>,
    k: nat,
    chosen: Seq<usize>,
    i: int,
    j: int,
    a: int,
)
    requires
        is_topk(scores, k, chosen),
        no_nan(scores),
        scores.len() <= usize::MAX,
        0 <= i < j < k,
        0 <= a < scores.len(),
    ensures
        chosen.len() == k,
        chosen[i] < scores.len(),
        chosen[j] < scores.len(),
        chosen[i] != chosen[j],
        scores[chosen[i] as int].value() >= scores[chosen[j] as int].value(),
        !chosen.contains(a as usize) ==> scores[a].value() <= scores[chosen[i] as int].value()
            && scores[a].value() <= scores[chosen[j] as int].value(),
{
    let x = chosen[i] as int;
    let y = chosen[j] as int;
    assert(chosen[i] < scores.len() && chosen[j] < scores.len());
    law_order_key(scores[y], scores[x]);
    law_order_key(scores[a], scores[x]);
    law_order_key(scores[a], scores[y]);
    if !chosen.contains(a as usize) {
        assert(order_key(scores[a]) <= order_key(scores[chosen[i] as int]));
        assert(order_key(scores[a]) <= order_key(scores[chosen[j] as int]));
    }
}

} // verus!
