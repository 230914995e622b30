//! Parameters of a deployment package.
use vstd::prelude::*;

verus! {

/// What a package fixes about its models and texts, apart from the floating-point settings.
#[derive(Debug, Clone, Copy)]
pub struct Params {
    pub sample_rate: u32,
    pub ldim: usize,
    pub dim: usize,
    pub max_len: usize,
    pub pad_spaces: bool,
    pub rm_semi: bool,
    pub append_punct: bool,
    pub n_layers: usize,
    pub max_latents: usize,
}

/// The number of latents per chunk where a package states none.
pub fn d256() -> (n: usize)
    ensures
        n == 256,
{
    256
}

} // verus!
