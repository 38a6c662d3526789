//! What the library rejects.

use vstd::prelude::*;

verus! {

#[derive(Debug, Clone, Copy, PartialEq, Eq, Structural)]
pub enum LmError {
    /// The `bn` x `bm` block does not tile an `n` x `m` weight.
    BlockTiling { bn: usize, bm: usize, n: usize, m: usize },
    /// An fp8 weight has `len` bytes in place of `n * m`.
    WeightLen { len: usize, n: usize, m: usize },
    /// A packed fp4 weight has `len` bytes in place of `n * m / 2`.
    PackedLen { len: usize, n: usize, m: usize },
    /// A scale has `len` bytes in place of one per tile.
    ScaleLen { len: usize, tiles: usize },
    /// A weight has `cols` input columns and the activation `inp`.
    InputWidth { cols: usize, inp: usize },
    /// An activation with `len` elements does not split into groups of `expected`.
    GroupShape { len: usize, expected: usize },
    /// More elements are asked for than there are.
    TopkWidth { k: usize, len: usize },
    /// The ranking of a row failed.
    Sort,
    /// A mask is not `batch` rows of `seq` values.
    MaskShape { batch: usize, seq: usize },
    /// The cache holds `have` sequences and `got` are given.
    BatchSize { have: usize, got: usize },
    /// The experts do not split evenly into groups.
    ExpertGroups { experts: usize, groups: usize },
    /// A layer that shares a selection has none to share.
    NoSharedTopk,
}

} // verus!
