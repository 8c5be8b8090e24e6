//! A small interpreter for a Horn-clause logic language: terms, a layered
//! binding environment, unification without occurs check, renaming of clauses
//! and depth-first resolution that hands out one answer at a time.

pub mod text;
pub mod variable;
pub mod term;
pub mod bindings;
pub mod clause;
pub mod substitution;
pub mod unify;
pub mod database;
pub mod run;
pub mod lex;
pub mod static_context;
pub mod parse_term;
pub mod parse_clauses;
pub mod term_builder;
pub mod runner;
pub mod soundness;
pub mod finite;
pub mod fresh;
pub mod symmetry;
pub mod complete;
