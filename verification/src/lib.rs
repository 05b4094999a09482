//! Tile-rewriting behaviour trees: a document model for games written as
//! behaviour trees over a board of string tiles, the graph that such a
//! document becomes, and an interpreter that walks that graph one step at a
//! time.
pub mod common;
pub mod interpreter;
pub mod parse;
pub mod prelude;
pub mod trrbt;
