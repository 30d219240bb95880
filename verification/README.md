# arenatree

Arena-allocated, cache-friendly graph data structures whose behaviour is
specified and proved with Verus:

- `arena`: the arena itself — nodes kept in slots, linked to their parents
  and children by slot index, with a queue of garbage slots that new nodes
  reuse first (each slot at most once); traversals (depth-first pre- and post-order, breadth-first,
  ancestors, siblings, descendants) and their outlines.
- `forest` and `tree`: a list of roots over an arena, and a tree rooted in
  slot 0; moving, replacing, copying and removing subtrees; logical equality
  and orders that leave garbage aside.
- `dag`: a directed acyclic graph in layers, with merging of sub-DAGs, cycle
  detection and reachability.
- `gss`: a graph-structured stack, with pushes, pops and the stack paths
  below a top.
- `graphviz` and `d2graphs`: graph descriptions in the `dot` and `d2`
  languages and the source text that displays them.
- `node`, `error`, `order`, `seqs`, `text`: node indices and nodes, errors,
  the orders used to compare structures, sequence facts, decimal numerals.

Each public function states in `requires`/`ensures` what it needs and what
it returns or changes, over the abstract views of the types; the laws that
relate several functions (what undoes what, what every operation keeps) are
public proof functions next to the code they speak of.

`tests/` runs the library on concrete values.  `app/` holds what stays
outside the verified code: the serde forms of the types, `Display` forms of
trees, forests and errors, and the writing of SVG and `d2` files.
