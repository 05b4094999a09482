//! What a user of the crate needs to run a tree.
pub use crate::interpreter::Interpreter;
