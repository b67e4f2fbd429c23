//! The search procedures and the data they share.

pub mod interface;
pub mod formula;
pub mod utility;
pub mod reader;
pub mod simple;
pub mod bcp;
pub mod propagation;
pub mod backing;
pub mod cdcl;
pub mod dpll;
