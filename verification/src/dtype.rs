//! Element types of stored tensors.

use vstd::prelude::*;

verus! {

#[derive(Debug, Clone, Copy, PartialEq, Eq, Structural)]
pub enum DType {
    U8,
    U32,
    I16,
    I32,
    I64,
    BF16,
    F16,
    F32,
    F64,
    F8E4M3,
    F6E2M3,
    F6E3M2,
    F4,
    F8E8M0,
}

/// Bytes per element; the sub-byte types count as zero.
pub open spec fn dtype_size(d: DType) -> nat {
    match d {
        DType::U8 | DType::F8E4M3 | DType::F8E8M0 => 1,
        DType::I16 | DType::BF16 | DType::F16 => 2,
        DType::U32 | DType::I32 | DType::F32 => 4,
        DType::I64 | DType::F64 => 8,
        DType::F6E2M3 | DType::F6E3M2 | DType::F4 => 0,
    }
}

impl DType {
    /// Bytes per element; the sub-byte types count as zero.
    pub fn size_in_bytes(&self) -> (r: usize)
        ensures
            r == dtype_size(*self),
    {
        match self {
            DType::U8 | DType::F8E4M3 | DType::F8E8M0 => 1,
            DType::I16 | DType::BF16 | DType::F16 => 2,
            DType::U32 | DType::I32 | DType::F32 => 4,
            DType::I64 | DType::F64 => 8,
            DType::F6E2M3 | DType::F6E3M2 | DType::F4 => 0,
        }
    }
}

/// The bytes of every element type that fills whole bytes; the others count as none.
pub proof fn law_element_sizes(d: DType)
    ensures
        8 * dtype_size(d) == (match d {
            DType::U8 => 8int,
            DType::U32 => 32,
            DType::I16 => 16,
            DType::I32 => 32,
            DType::I64 => 64,
            DType::BF16 => 16,
            DType::F16 => 16,
            DType::F32 => 32,
            DType::F64 => 64,
            DType::F8E4M3 => 8,
            DType::F8E8M0 => 8,
            DType::F6E2M3 => 0,
            DType::F6E3M2 => 0,
            DType::F4 => 0,
        }),
{
}

} // verus!
