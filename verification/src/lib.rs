//! A restricted regular-expression toolkit: a recursive-descent parser that
//! builds a pattern tree, a canonicalizing renderer that turns the tree back
//! into text, and a weighted random generator that produces strings matching
//! the pattern.

pub mod ast;
pub mod lang;
pub mod parser;
pub mod rand_gen;
pub mod render;
