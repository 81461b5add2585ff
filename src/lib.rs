//! A JSON engine: a mutable value tree, a recursive-descent parser from bytes
//! to that tree, and a printer from the tree back to text, each stated and
//! proved against a mathematical model of the tree.

pub mod number;
pub mod text;
pub mod tree;
pub mod printer;
pub mod parser;
pub mod version;
pub mod laws;
