//! Lowering of the source language to straight-line SSA code.

pub mod ast;
pub mod ssa;
pub mod cps;
pub mod cps_renaming;
pub mod cps_ddcg;
pub mod cps_ddcg_with_renaming;
pub mod cps_concise;
pub mod pretty;
pub mod naive;
