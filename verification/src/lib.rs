//! Bounded, 1-safe Petri nets: a net model, its flat partition encoding and a
//! step-by-step execution engine.

pub mod codegen;
pub mod decode;
pub mod execution;
pub mod nbpt;
pub mod partition;
pub mod petrinet;
