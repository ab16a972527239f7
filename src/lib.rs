//! A propositional-logic reasoner: expression trees over single-letter symbols,
//! their normalization into conjunctive normal form, and a resolution engine
//! over sets of clauses.

pub mod cnf;
pub mod stmt;
pub mod parser;
