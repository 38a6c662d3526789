//! How stored tensors are read into weights.

use vstd::prelude::*;

use crate::blocks::{count_elems, counts_fit, elem_count};

verus! {

/// How a stored tensor becomes a weight.
pub enum SourceView {
    /// Read as it is stored.
    Plain,
    /// Block-scaled fp8, `rows` x `cols`.
    Fp8 { scale: Seq<char>, rows: nat, cols: nat, block: (usize, usize) },
    /// Block-scaled packed fp4, `rows` x `cols`.
    Fp4 { scale: Seq<char>, rows: nat, cols: nat, block: (usize, usize) },
}

/// How a stored tensor becomes a weight.
#[derive(Debug)]
pub enum WeightSource {
    Plain,
    Fp8 { scale: String, rows: usize, cols: usize, block: (usize, usize) },
    Fp4 { scale: String, rows: usize, cols: usize, block: (usize, usize) },
}

impl View for WeightSource {
    type V = SourceView;

    open spec fn view(&self) -> SourceView {
        match self {
            WeightSource::Plain => SourceView::Plain,
            WeightSource::Fp8 { scale, rows, cols, block } => SourceView::Fp8 {
                scale: scale@,
                rows: *rows as nat,
                cols: *cols as nat,
                block: *block,
            },
            WeightSource::Fp4 { scale, rows, cols, block } => SourceView::Fp4 {
                scale: scale@,
                rows: *rows as nat,
                cols: *cols as nat,
                block: *block,
            },
        }
    }
}

/// The reading of one stored tensor into a weight of shape `dims`.
pub struct PartView {
    pub name: Seq<char>,
    pub source: SourceView,
    pub dims: Seq<usize>,
    /// Whether the tensor is brought to the shape `dims`, or keeps its stored one.
    pub reshape: bool,
}

/// The reading of one stored tensor into a weight of shape `dims`.
#[derive(Debug)]
pub struct WeightPart {
    pub name: String,
    pub source: WeightSource,
    pub dims: Vec<usize>,
    pub reshape: bool,
}

impl View for WeightPart {
    type V = PartView;

    open spec fn view(&self) -> PartView {
        PartView {
            name: self.name@,
            source: self.source@,
            dims: self.dims@,
            reshape: self.reshape,
        }
    }
}

/// Rows and columns of a weight of at least two dimensions: all leading dimensions
/// together, and the last one.
pub fn rows_and_cols(dims: &[usize]) -> (r: (usize, usize))
    requires
        counts_fit(dims@),
        dims@.len() >= 2,
    ensures
        r.0 == elem_count(dims@.drop_last()),
        r.1 == dims@.last(),
{
    let rank: usize = dims.len();
    proof {
        let lead = dims@.drop_last();
        assert(dims@.take(rank - 1) =~= lead);
        assert forall|i: int| 0 <= i <= lead.len() implies #[trigger] elem_count(lead.take(i))
            <= usize::MAX by {
            assert(lead.take(i) =~= dims@.take(i));
        }
    }
    (count_elems(dims, rank - 1), dims[rank - 1])
}

/// Whether a loaded weight has the shape that was asked for.
pub fn same_shape(got: &[usize], want: &[usize]) -> (r: bool)
    ensures
        r == (got@ == want@),
{
    if got.len() != want.len() {
        return false;
    }
    let mut i: usize = 0;
    while i < got.len()
        invariant
            i <= got@.len(),
            got@.len() == want@.len(),
            forall|a: int| 0 <= a < i ==> #[trigger] got@[a] == want@[a],
        decreases got@.len() - i,
    {
        if got[i] != want[i] {
            return false;
        }
        i = i + 1;
    }
    proof {
        assert(got@ =~= want@);
    }
    true
}

/// Copies a shape.
pub fn copy_dims(dims: &[usize]) -> (r: Vec<usize>)
    ensures
        r@ == dims@,
{
    let mut r: Vec<usize> = Vec::with_capacity(dims.len());
    let mut i: usize = 0;
    while i < dims.len()
        invariant
            i <= dims@.len(),
            r@ == dims@.take(i as int),
        decreases dims@.len() - i,
    {
        r.push(dims[i]);
        i = i + 1;
    }
    proof {
        assert(dims@.take(dims@.len() as int) =~= dims@);
    }
    r
}

} // verus!
