# scoph

Tile-rewriting behaviour trees: games written as behaviour trees whose nodes
rewrite a board of string tiles.

- `src/common.rs`: boards (`TRRBTPattern`, named layers of `toodee` grids),
  node metadata, node actions, and reading a grid from rows of tiles.
- `src/parse.rs`: the document form of a tree.
- `src/interpreter/tree.rs`: the `petgraph` graph a document becomes, nodes
  numbered in preorder.
- `src/interpreter.rs`: the interpreter, one step at a time, with the laws
  of its runs.
- `src/trrbt.rs`: the first document format.
- `app/`: JSON reading and writing with serde, the `Visitor` trait and the
  loop that runs an interpreter under a visitor.

Everything under `src/` is verified with Verus; `app/` is ordinary Rust.
