//! A small command-line interpreter core: a parser that turns one input line
//! into a flat list of commands, and the decision logic of the engine that
//! runs them.
pub mod split;
pub mod tokens;
pub mod engine;
pub mod complete;
pub mod prompt;
