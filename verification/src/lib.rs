//! A propositional satisfiability solver for formulas in conjunctive normal
//! form, with three interchangeable search procedures (exhaustive search,
//! DPLL and CDCL) built on watched-literal constraint propagation.

pub mod algorithm;
pub mod cli;
pub mod delta_debug;
