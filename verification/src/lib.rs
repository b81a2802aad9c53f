//! A scalar reverse-mode automatic differentiation engine.
//!
//! Arithmetic expressions are recorded eagerly as a directed acyclic
//! computation graph; a backward pass then computes the partial derivative of
//! a chosen root with respect to every node that contributed to it.
//!
//! Scalars are IEEE-754 single-precision bit patterns carried as `u32`. The
//! engine never interprets those bits: every primitive arithmetic step is
//! delegated to a caller-supplied evaluator (see [`op::FReq`]), and the
//! contracts pin the engine's behaviour exactly, relative to any mathematical
//! interpretation that the evaluator's postcondition admits.

pub mod backward;
pub mod graph;
pub mod laws;
pub mod op;
