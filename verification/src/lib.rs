//! Core of a symbolic-expression language runtime: a term algebra of atoms
//! (symbols, variables, grounded values, expressions), a unifier with
//! bindings, a knowledge base of atoms answering pattern queries, a type
//! checker over `(: term type)` / `(:< sub super)` assertions, a step-wise
//! rewriting interpreter driven by `(= lhs rhs)` equations, and a runner that
//! feeds parsed atoms into the knowledge base or the interpreter.

pub mod atom;
pub mod interpreter;
pub mod laws;
pub mod matcher;
pub mod runner;
pub mod space;
pub mod text;
pub mod types;
