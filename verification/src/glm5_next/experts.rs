//! The routed experts' view of a GLM-5.3 configuration.

use vstd::prelude::*;

use super::Glm5NextTextConfig;
use crate::deepseek_v4::MoeExpertsConfig;
use crate::float::F64;

verus! {

impl MoeExpertsConfig for Glm5NextTextConfig {
    fn n_routed_experts(&self) -> (r: usize)
        ensures
            r == self.n_routed_experts,
    {
        self.n_routed_experts
    }

    fn moe_intermediate_size(&self) -> (r: usize)
        ensures
            r == self.moe_intermediate_size,
    {
        self.moe_intermediate_size
    }

    fn hidden_size(&self) -> (r: usize)
        ensures
            r == self.hidden_size,
    {
        self.hidden_size
    }

    fn swiglu_limit(&self) -> (r: F64)
        ensures
            r == self.swiglu_limit,
    {
        self.swiglu_limit
    }
}

} // verus!
