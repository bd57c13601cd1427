//! Flow-sensitive static analysis for an arithmetic-circuit description
//! language: control-flow graphs built from statement trees, per-path
//! definite/multiple-assignment checking, a visitor-based lint framework with
//! two concrete rules, and a termination analysis for canonical counted loops.

pub mod ast;
pub mod cfg;
pub mod flowgraph;
pub mod lint;
pub mod numeric;
pub mod termination;
pub mod text;
