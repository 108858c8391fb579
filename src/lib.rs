//! A function-level program verifier: conditions are parsed, bound to the
//! types of a variable table, turned into a verification condition by a
//! weakest-precondition walk over a control-flow graph, and checked by z3.

pub mod expr;
pub mod parser;
pub mod typeck;
pub mod wp;
pub mod smt;
pub mod solver;
pub mod annotation;
pub mod pipeline;
