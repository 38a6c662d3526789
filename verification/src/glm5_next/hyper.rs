//! The hyper-connection's view of a GLM-5.3 configuration.

use vstd::prelude::*;

use super::Glm5NextTextConfig;
use crate::deepseek_v4::HyperConnectionConfig;
use crate::float::F64;

verus! {

impl HyperConnectionConfig for Glm5NextTextConfig {
    fn hc_mult(&self) -> (r: usize)
        ensures
            r == self.hc_mult,
    {
        self.hc_mult
    }

    fn hc_sinkhorn_iters(&self) -> (r: usize)
        ensures
            r == self.hc_sinkhorn_iters,
    {
        self.hc_sinkhorn_iters
    }

    fn hc_eps(&self) -> (r: F64)
        ensures
            r == self.hc_eps,
    {
        self.hc_eps
    }

    fn hidden_size(&self) -> (r: usize)
        ensures
            r == self.hidden_size,
    {
        self.hidden_size
    }

    fn rms_norm_eps(&self) -> (r: F64)
        ensures
            r == self.rms_norm_eps,
    {
        self.rms_norm_eps
    }
}

} // verus!
