# solution

Data structures for online-judge programs, written in Verus and proved against their
specifications.

- `src/traits`: semigroups and monoids, with their laws as proof obligations.
- `src/data_structure/ref_store.rs`: stores that hand out references to values (arenas,
  fixed-capacity arenas, layered arenas over a base arena, and `Rc`/`Arc` stores).
- `src/data_structure/finger_tree*`: finger trees measured by a monoid, with chunked leaves,
  persistent and in-place operations, concatenation and splitting by a monotone predicate.
- `src/data_structure/seg_tree*` and `src/seg_tree.rs`: segment trees with lazy modifiers —
  a persistent tree of shared nodes, store-backed trees with leaf blocks (`tree` and
  `persist`), and modifiers (`tags`, `colors`).
- `src/io.rs`: a scanner of whitespace-separated tokens over bytes in memory.
- `src/subarray_gcd.rs`: Euclid's gcd and the largest length-times-gcd over the ranges of a
  sequence.
- `src/text_history.rs`: one step of a text editor with undo, over a finger tree of texts.

The shared-node segment trees (`src/seg_tree.rs`, `src/data_structure/seg_tree.rs`) update
the elements from `range.start` to `range.end`, both included; their queries, and the
store-backed trees, take half-open ranges. A store-backed segment tree works in a
fixed-capacity arena as long as the arena has room for the nodes an operation may allocate:
building a tree of `len` elements in blocks of `B` takes `2 * ceil(len / B) - 2` nodes, and
an update at most `2 * len - 2`.
A finger tree works in a fixed-capacity arena in the same way: each operation's contract
says how much room it may take from the arena, as a function of the height of the trees it
works on (`room_for`, `spent`), and building a tree from `n` elements takes at most
`n * n - n + 2` values of room.

`seg_tree::affine::affine_step` carries out one command of the range-multiply, range-add,
range-sum problem on the shared-node tree; `app/` reads the commands and prints the sums.
The workspace's source-bundling tool, which reads files and parses Rust source, is not
part of this crate.
- `app/`: standard input and output, and small judge programs built on the library.
- `tests/`: tests of the library.
