//! Activation functions by name.

use vstd::prelude::*;

use crate::float::F64;

verus! {

#[derive(Debug, Clone, Copy, PartialEq, Eq, Structural)]
pub enum Activation {
    Gelu,
    NewGelu,
    Relu,
    Relu2,
    Relu6,
    Silu,
    Sigmoid,
    HardSigmoid,
    Swiglu,
    Swish,
    Mish,
    HardSwish,
    Elu(F64),
    LeakyRelu(F64),
    GeluPytorchTanh,
}

} // verus!
