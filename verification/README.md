# btree

An ordered in-memory map stored as a B+-tree, written in Verus and verified.

Values live only in leaves; branch nodes hold separators equal to the minimum
key of the child to their right. Node capacity is a const generic and must be at
least three.

## Layout

- `src/key.rs`: the `OrderedKey` trait (a strict total order on key views with a
  run-time comparison that agrees with it), for `u64` and `String`.
- `src/node.rs`: leaves, branches, search, routing, insertion with splits,
  removal with borrowing, merging and separator refresh, root normalization.
- `src/tree.rs`: `BTree`, whose view is its sorted run of entries.
- `src/model.rs`: the map that a run of entries stands for.
- `src/iter.rs`: cursors over the leaves, `Iter`, bounded `Range` and bound
  validation.
- `src/projections.rs`: `Keys` and `Values`.
- `src/validate.rs`: a run-time check of the structural invariant, exact with
  respect to the invariant that the proofs use.
- `src/laws.rs`: properties that relate the operations to one another.

Every public operation states its result over the tree's view: `insert`,
`remove` and `get` over the entry map as well as over the sorted run, iteration
and ranges over positions in the run.
