//! The Petri-net core, its builders, and the exporters.

pub mod basic_block;
pub mod export;
pub mod function;
pub mod intrinsics;
pub mod laws;
pub mod petri_net;
pub mod trait_impls;
pub mod unique_functions;
