//! Control-flow-graph core of a compiler for a small register machine.
//!
//! A flat stream of parsed statements (labels, jumps, plain instructions) is
//! split into basic blocks by [`module::Module::new`], optimized to a fixpoint
//! by [`module::Module::optimize`], and re-linearized by
//! [`module::Module::finish`].

pub mod stmt;
pub mod targets;
pub mod labels;
pub mod block;
pub mod module;
pub mod optimize;
pub mod flatten;
pub mod statement;
pub mod resolve;
pub mod roundtrip;
