//! Sampling designs and basis enumeration for variance-based global
//! sensitivity analysis, with their combinatorial structure proved.

pub mod rng;
pub mod combinatorics;
pub mod multi_index;
pub mod permutation;
pub mod lhs;
pub mod sobol;
pub mod sobol_net;
pub mod fast;
pub mod plackett_burman;
pub mod morris;
pub mod design_blocks;
pub mod saltelli_matrix;
pub mod owen_matrix;
pub mod shapley;
pub mod config_hash;
pub mod pce;
pub mod iman_conover;
