# zhc

Verified building blocks of an FHE integer-operation compiler, written in Verus.

`src/` is the verified library:

- `small_vec`, `stack_vec`: a vector that keeps up to 64 bytes of elements
  in a fixed-capacity vector and moves them to an unbounded one past that (the
  fixed-capacity vector is backed by a `Vec` whose length it bounds).
- `erasable`: a value that is either live or erased.
- `add_tree`: shapes of the carry-lookahead tree adder (their text form, the
  parser and printer, the default shapes and the tables by integer size) and
  the lookup-table functions of its blocks.
- `kogge`: the Kogge-Stone prefix tree over partial carries, its split rule,
  the combination step and the chunked carry resolution.
- `hillis_steele`: the Hillis-Steele scan that resolves group carries.
- `hs_add`: the Hillis-Steele adder built on it, block states to carry
  resolution, with the block operations handed in as closures.
- `mul`: the schoolbook multiplier and its chained links over windows of
  columns, with the proof that on clear digits it computes the product modulo
  the cut-off and that its flag tells whether anything lies past it.
- `mh_mul`: the multiplier that splits its operands into limbs, multiplies
  every pair of limbs with chained links of `mul` and sums the limbs of each
  offset with a tree of limb adders.
- `div`: the core of the divider, two quotient bits per step, with the block
  operations, the adder and the precomputed multiples of the divisor handed in.
- `match_value`: the table lookup on encrypted digits through a mux tree, with
  its shortcut for tables that a known circuit computes.
- `aes`: the bitsliced AES S-box schedule, xtime, and the recognition of dense
  lookup tables.
- `iop`: the integer operations, their opcode bytes, and the scheduling
  decisions of the pipeline and of the multi-HPU multiplier.
- `kinds`, `scope`, `short_names`, `filters`: operation selectors, the
  element-wise combination of block vectors, trace scopes, short type names,
  and the command-line filters of the benchmark runner.

`tests/` runs the library; `app/` holds what needs std's type names or serde.
