//! Positions in a row: counted in blocks, listed by a flag, and looked up.

use vstd::arithmetic::div_mod::{lemma_fundamental_div_mod, lemma_fundamental_div_mod_converse};
use vstd::prelude::*;

verus! {

/// The number of `bk`-wide blocks that cover `k` columns.
pub fn count_blocks(k: usize, bk: usize) -> (r: usize)
    requires
        bk > 0,
    ensures
        r == (k + bk - 1) / bk as int,
{
    proof {
        let q = k as int / bk as int;
        let d = k as int % bk as int;
        lemma_fundamental_div_mod(k as int, bk as int);
        assert(q <= k) by (nonlinear_arith)
            requires
                k == bk * q + d,
                0 <= d,
                bk > 0,
                q >= 0,
        ;
        if d == 0 {
            lemma_fundamental_div_mod_converse(
                k + bk - 1,
                bk as int,
                q,
                bk - 1,
            );
        } else {
            assert(q < k) by (nonlinear_arith)
                requires
                    k == bk * q + d,
                    0 < d,
                    bk > 0,
                    q >= 0,
            ;
            assert(k + bk - 1 == (q + 1) * bk + (d - 1)) by (nonlinear_arith)
                requires
                    k == bk * q + d,
            ;
            lemma_fundamental_div_mod_converse(
                k + bk - 1,
                bk as int,
                q + 1,
                d - 1,
            );
        }
    }
    if k % bk == 0 {
        k / bk
    } else {
        k / bk + 1
    }
}

/// The increasing positions at which `flags` holds, among the first `upto`.
pub open spec fn indices_where(flags: Seq<bool>, upto: nat) -> Seq<usize>
    decreases upto,
{
    if upto == 0 {
        Seq::empty()
    } else {
        let prev = indices_where(flags, (upto - 1) as nat);
        if flags[upto - 1] {
            prev.push((upto - 1) as usize)
        } else {
            prev
        }
    }
}

/// The listed positions are exactly those where the flag holds, in order.
pub proof fn law_indices_where(flags: Seq<bool>, upto: nat)
    requires
        upto <= flags.len(),
        upto <= usize::MAX,
    ensures
        forall|a: int, b: int|
            0 <= a < b < indices_where(flags, upto).len() ==> #[trigger] indices_where(
                flags,
                upto,
            )[a] < #[trigger] indices_where(flags, upto)[b],
        forall|a: int|
            0 <= a < indices_where(flags, upto).len() ==> (#[trigger] indices_where(flags, upto)[a])
                < upto && flags[indices_where(flags, upto)[a] as int],
        forall|i: int|
            0 <= i < upto && flags[i] ==> #[trigger] indices_where(flags, upto).contains(i as usize),
    decreases upto,
{
    if upto > 0 {
        let prev = indices_where(flags, (upto - 1) as nat);
        let cur = indices_where(flags, upto);
        law_indices_where(flags, (upto - 1) as nat);
        assert forall|i: int| 0 <= i < upto && flags[i] implies #[trigger] cur.contains(
            i as usize,
        ) by {
            if i == upto - 1 {
                assert(cur[cur.len() - 1] == i as usize);
            } else {
                assert(prev.contains(i as usize));
                let k = choose|k: int| 0 <= k < prev.len() && prev[k] == i as usize;
                assert(cur[k] == i as usize);
            }
        }
    }
}

/// Whether `x` is listed.
pub fn is_among(list: &Vec<usize>, x: usize) -> (r: bool)
    ensures
        r == list@.contains(x),
{
    let mut i: usize = 0;
    while i < list.len()
        invariant
            i <= list@.len(),
            forall|a: int| 0 <= a < i ==> #[trigger] list@[a] != x,
        decreases list@.len() - i,
    {
        if list[i] == x {
            return true;
        }
        i = i + 1;
    }
    false
}

} // verus!
