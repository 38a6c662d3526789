//! Row-major matrices cut into rectangular tiles, and shapes as element counts.

use vstd::arithmetic::div_mod::{
    lemma_fundamental_div_mod, lemma_fundamental_div_mod_converse, lemma_mod_bound,
};
use vstd::prelude::*;

verus! {

/// The tile that holds element `p` of a row-major matrix with `m` columns, in a
/// row-major grid of `bn` x `bm` tiles.
pub open spec fn tile_of(p: int, m: int, bn: int, bm: int) -> int {
    ((p / m) / bn) * (m / bm) + (p % m) / bm
}

/// Every element lies in a tile of the grid.
pub proof fn lemma_tile_in_grid(p: int, n: int, m: int, bn: int, bm: int)
    requires
        0 <= p < n * m,
        m > 0,
        bn > 0,
        bm > 0,
        n % bn == 0,
        m % bm == 0,
    ensures
        0 <= p / m < n,
        0 <= p % m < m,
        0 <= (p / m) / bn < n / bn,
        0 <= (p % m) / bm < m / bm,
        0 <= ((p / m) / bn) * (m / bm),
        0 <= tile_of(p, m, bn, bm) < (n / bn) * (m / bm),
{
    let i = p / m;
    let j = p % m;
    lemma_fundamental_div_mod(p, m);
    lemma_mod_bound(p, m);
    assert(0 <= i < n) by (nonlinear_arith)
        requires
            p == m * i + j,
            0 <= j < m,
            0 <= p < n * m,
            m > 0,
    ;
    lemma_quotient_in_grid(i, n, bn);
    lemma_quotient_in_grid(j, m, bm);
    let ti = i / bn;
    let gm = m / bm;
    assert(0 <= ti * gm && ti * gm + gm <= (n / bn) * gm) by (nonlinear_arith)
        requires
            0 <= ti < n / bn,
            0 <= gm,
    ;
}

/// An index below a multiple of the block size falls in one of its blocks.
pub proof fn lemma_quotient_in_grid(i: int, n: int, b: int)
    requires
        0 <= i < n,
        b > 0,
        n % b == 0,
    ensures
        0 <= i / b < n / b,
{
    lemma_fundamental_div_mod(i, b);
    lemma_fundamental_div_mod(n, b);
    lemma_mod_bound(i, b);
    let q = i / b;
    let g = n / b;
    assert(0 <= q < g) by (nonlinear_arith)
        requires
            i == b * q + i % b,
            n == b * g,
            0 <= i < n,
            0 <= i % b < b,
            b > 0,
    ;
}

/// Row and column of a flat index.
pub proof fn lemma_row_col(i: int, j: int, n: int, m: int)
    requires
        0 <= i < n,
        0 <= j < m,
    ensures
        (i * m + j) / m == i,
        (i * m + j) % m == j,
        0 <= i * m,
        i * m + j < n * m,
        i * m + m <= n * m,
{
    lemma_fundamental_div_mod_converse(i * m + j, m, i, j);
    assert(0 <= i * m && i * m + m <= n * m) by (nonlinear_arith)
        requires
            0 <= i < n,
            0 <= m,
    ;
}

/// Computes the tile of an element in a grid of `tiles` tiles.
pub fn tile_index(p: usize, n: usize, m: usize, bn: usize, bm: usize, tiles: usize) -> (t: usize)
    requires
        p < n * m,
        bn > 0,
        bm > 0,
        n % bn == 0,
        m % bm == 0,
        tiles == (n / bn) * (m / bm),
    ensures
        t == tile_of(p as int, m as int, bn as int, bm as int),
        t < tiles,
{
    proof {
        assert(m > 0) by (nonlinear_arith)
            requires
                p < n * m,
                p >= 0,
                m >= 0,
        ;
        lemma_tile_in_grid(p as int, n as int, m as int, bn as int, bm as int);
    }
    ((p / m) / bn) * (m / bm) + (p % m) / bm
}

/// The number of elements of a shape.
pub open spec fn elem_count(dims: Seq<usize>) -> nat
    decreases dims.len(),
{
    if dims.len() == 0 {
        1
    } else {
        elem_count(dims.drop_last()) * dims.last() as nat
    }
}

/// The element count of a shape and of each of its leading parts fits in a word.
pub open spec fn counts_fit(dims: Seq<usize>) -> bool {
    forall|i: int| 0 <= i <= dims.len() ==> #[trigger] elem_count(dims.take(i)) <= usize::MAX
}

/// Multiplies the first `upto` dimensions.
pub fn count_elems(dims: &[usize], upto: usize) -> (r: usize)
    requires
        upto <= dims@.len(),
        counts_fit(dims@.take(upto as int)),
    ensures
        r == elem_count(dims@.take(upto as int)),
{
    let ghost lead = dims@.take(upto as int);
    let mut r: usize = 1;
    let mut i: usize = 0;
    while i < upto
        invariant
            i <= upto <= dims@.len(),
            lead == dims@.take(upto as int),
            counts_fit(lead),
            r == elem_count(lead.take(i as int)),
        decreases upto - i,
    {
        proof {
            let next = lead.take(i + 1);
            assert(next.drop_last() =~= lead.take(i as int));
            assert(elem_count(next) <= usize::MAX);
        }
        r = r * dims[i];
        i = i + 1;
    }
    proof {
        assert(lead.take(upto as int) =~= lead);
    }
    r
}

/// An element in row `i` and column `j` lies in the tile in row `a` and column `c` of the
/// grid, where tile row `a` covers rows `a * bn` to `(a + 1) * bn` and tile column `c`
/// columns `c * bm` to `(c + 1) * bm`.
pub proof fn law_tile_of_element(i: int, j: int, m: int, bn: int, bm: int, a: int, c: int)
    requires
        bn > 0,
        bm > 0,
        0 <= i,
        0 <= j < m,
        a * bn <= i < (a + 1) * bn,
        c * bm <= j < (c + 1) * bm,
    ensures
        tile_of(i * m + j, m, bn, bm) == a * (m / bm) + c,
{
    lemma_row_col(i, j, i + 1, m);
    assert((a + 1) * bn == a * bn + bn) by (nonlinear_arith);
    assert((c + 1) * bm == c * bm + bm) by (nonlinear_arith);
    lemma_fundamental_div_mod_converse(i, bn, a, i - a * bn);
    lemma_fundamental_div_mod_converse(j, bm, c, j - c * bm);
}

/// A shape of one dimension has as many elements as it says, and joining two shapes
/// multiplies their counts.
pub proof fn law_elem_count(a: Seq<usize>, b: Seq<usize>, d: usize)
    ensures
        elem_count(seq![d]) == d,
        elem_count(a + b) == elem_count(a) * elem_count(b),
    decreases b.len(),
{
    assert(seq![d].drop_last() =~= Seq::<usize>::empty());
    assert(elem_count(Seq::<usize>::empty()) == 1);
    if b.len() == 0 {
        assert(a + b =~= a);
        assert(elem_count(a) * 1 == elem_count(a));
    } else {
        law_elem_count(a, b.drop_last(), d);
        assert((a + b).drop_last() =~= a + b.drop_last());
        let x = elem_count(a);
        let y = elem_count(b.drop_last());
        let z = b.last() as nat;
        assert((x * y) * z == x * (y * z)) by (nonlinear_arith);
    }
}

} // verus!
