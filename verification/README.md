# restructure

Structures the control flow of a function: from a graph of basic blocks to nested
statements, with gotos only where no structure is found.  The library is verified
with Verus; the graph algorithms are petgraph's, the hash tables rustc-hash's.

A `cfg::Function` holds blocks of statements (`ast`) joined by edges.
`emit::lift` collapses it and writes it down:

- `structurer` keeps what is known while a function is being structured: the
  function, its loop headers, and the blocks that labels stand in.  `loops` is what
  the headers say of cycles.
- `patterns` looks for structure at one block.  What structures there are is up to
  an implementation of `Patterns`; `NoPatterns` knows none.
- `passes` looks at every block, in postorder, and takes out dead ones.  `idle` is
  what is left where nothing is recognised: without patterns, or without edges.
- `refine` gives up edges where no structure is found, and takes that back where it
  does not help.
- `jumps` is what giving up an edge means: joining two blocks, repeating one, or a
  goto.  `labels` is what it keeps.
- `emit` writes the blocks down in the order in which gotos lead to them.
- `inspect` and `text` answer questions about blocks and write names.
- `flow`, `dominance`, `search`, `walk`, `blocks` and `cfg` are the graph; `tables`
  the hash tables; `lists` what holds of lists.

`chunk` frames compiled chunks, and `serve` says what the decompiler's server
offers and how it pings itself.  `app/` is that server.

Contracts speak of views: `FunctionView` for a function and `StructurerView` for a
function that is being structured.  Where structuring goes through an
implementation of `Patterns`, they speak of the steps that were taken (`Look`,
`Pass`, traces) and of what the implementation says of itself.
