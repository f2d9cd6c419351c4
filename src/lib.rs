//! Satisfiability of propositional formulas in conjunctive normal form,
//! decided by a DPLL-style search over partial assignments.
pub mod formula;
pub mod algorithms;
pub mod parser;
