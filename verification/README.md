# flat_cont

Converts a basic-block IR into flat continuations.

The input is a `BasicBlockGraph`: a pool of nodes and a list of blocks that
list the pool nodes they evaluate and end in a terminator (jump, branch,
switch or return) that passes effect arguments and ordinary arguments to its
targets. Effect tokens are ordinary SSA values: a load or store consumes a
token and yields a new one through a projection.

The output is a `FlatContGraph` with one continuation per block. Each
continuation is self-contained: the values and effect tokens its block takes
from other blocks become its parameters and effect parameters, its
computation nodes become its body, and every operand is renumbered to a local
index.

The conversion runs in three steps:

1. every block asks those of its predecessors that see a value it needs
   from another block (a node input, a terminator argument, or the value it
   branches on) to pass that value on; a predecessor that does not define
   the value asks its own predecessors in turn, until no block asks for
   anything new;
2. block by block, each terminator inherits the arguments its predecessors
   pass and keeps each inherited one only while a later block still uses
   it;
3. every block is renumbered into its continuation.

## Layout

- `src/` — the library, verified with Verus: the IR types, their models,
  the conversion with its contracts, a validity check for input graphs, and
  the properties of the conversion as a whole (`laws.rs`, `supply.rs`,
  `invariance.rs`, `locality.rs`).
- `tests/` — tests of the library on concrete graphs.
- `app/` — serializable (serde) copies of the IR types, with conversions to
  and from the library's types, and the conversion on them.
