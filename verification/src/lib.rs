//! Structural type inference for JSON values and a small jq-style
//! transform pipeline.
//!
//! The schema side is a join-semilattice over JSON shapes: `JsonType`
//! describes the shape of one or more observed values, `join` merges two
//! shapes, and `unify` folds `join` over a list of shapes.  The transform
//! side is an ordered pipeline of field selections with a textual syntax
//! that parses and renders losslessly.

pub mod infer;
pub mod json_type;
pub mod json_value;
pub mod lattice;
pub mod preview;
pub mod render;
pub mod semilattice;
pub mod text;
pub mod transform;
