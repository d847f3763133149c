//! Equivalence checking of Boolean formulas through reduced ordered binary
//! decision diagrams (ROBDDs) with complement edges, together with a
//! brute-force truth-table cross-check.

pub mod areabdd;
pub mod ast;
pub mod bdd;
pub mod expr_builder;
pub mod ordering_map;
pub mod parser;
