//! A binary decision diagram (BDD) engine.
//!
//! Boolean functions are represented as reduced ordered decision diagrams
//! held in a [`manager::Manager`]: an arena of inner nodes, canonicalized so
//! that two edges are equal exactly when they denote the same Boolean
//! function. The usual algebra over such diagrams is provided: negation,
//! the binary connectives, if-then-else, restriction under a cube,
//! quantification, substitution, satisfaction counting, cube picking and
//! evaluation. Every operation carries a contract that pins down the
//! denotation of the edge it returns, and the canonical-form theorem in
//! [`laws`] turns those denotations into node-identity laws.

pub mod types;
pub mod semantics;
pub mod manager;
pub mod apply;
pub mod restrict;
pub mod quant;
pub mod subst;
pub mod bits;
pub mod analysis;
pub mod function;
pub mod laws;
