//! Verified index, layout and bookkeeping logic of the tensor4all
//! benchmark: quantics grid indices, the arms and their record tokens, patch
//! layouts, parameter accounting, and the integrated-mixture cache format.

pub mod elementwise;
pub mod gaussian3d_input;
pub mod gaussian_input;
pub mod harness;
pub mod integrated_gaussian;
pub mod mpo_contract;
mod text;
pub mod patched;
pub mod patched_mpo;
