//! Decomposition engine for splitting one large Rust source file into
//! smaller modules: a declaration registry, a call-graph clusterer for
//! oversized `impl` blocks, a placement strategist, a type-level cycle
//! detector and an import resolver.

pub mod config;
pub mod decl;
pub mod dependency;
pub mod emit;
pub mod imports;
pub mod methods;
pub mod naming;
pub mod planner;
pub mod scope;
pub mod text;
