//! Evaluator for flat arithmetic expressions over integers, `+`, `*` and
//! parentheses: a character-level finite-state scanner turns the input into
//! tokens, and a table-driven shift-reduce parser folds the token stream into
//! a single value on an explicit state/value stack, without building a tree.

pub mod token;
pub mod tokenizer;
pub mod parser;
pub mod eval;
