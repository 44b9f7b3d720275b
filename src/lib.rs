//! Compiles a regular-expression syntax tree into a minimal deterministic
//! automaton: Thompson construction, epsilon elimination, subset construction
//! and partition-refinement minimization. Elimination, subset construction and
//! minimization are proved to keep the accepted language; the construction is
//! proved to allocate fresh, isolated states for every fragment.
pub mod ast;
pub mod bounds;
pub mod dfa;
pub mod dot;
pub mod epsilon_elimination;
pub mod graph_builder;
pub mod minimize;
pub mod nfa;
pub mod parser;
pub mod pipeline;
pub mod renumber;
pub mod subset;
pub mod thompson;
pub mod tokenizer;
pub mod types;
