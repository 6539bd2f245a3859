//! A DPLL-style SAT solver for formulas in conjunctive normal form.
//!
//! The solver decides satisfiability by backtracking search with unit
//! propagation and a pure-literal pre-pass.  `solve` carries a full
//! correctness contract: a `true` verdict comes with a partial assignment
//! whose every total extension satisfies the clause set (soundness), and a
//! `false` verdict proves that no total extension of the starting
//! assignment satisfies it (completeness).

pub mod dimacs;
pub mod formula;
pub mod laws;
pub mod solver;
