//! A scalar reverse-mode automatic-differentiation engine.
//!
//! The engine builds a directed acyclic graph of arithmetic operations over
//! scalar values and computes the derivative of any node with respect to every
//! node that contributed to it, by walking the graph backward from the root
//! and accumulating contributions according to each operation's local rule.
//!
//! Scalars are IEEE-754 double-precision values carried as raw `u64` bit
//! patterns, so that the graph logic itself can be verified; the arithmetic on
//! the bit patterns is delegated to software floating-point routines behind a
//! small trusted layer (see `arith`).

pub mod arith;
pub mod graph;
pub mod laws;
