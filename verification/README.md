# rayon_cond

An iterator whose items are processed either in parallel, with rayon, or serially,
with one API either way. A `CondIterator<T>` holds its items and a flag for the mode;
every adaptor and consumer states its result, in Verus, over the sequence of items, and
the laws in `src/laws.rs` prove that the two modes agree wherever the closures allow it.

Layout of `src/`:

- `model.rs`: the spec functions that the contracts speak of (closures as relations
  through `call_ensures`, folds, bracketed reductions, searching, rearranging).
- `cond.rs`: the type, its constructors and its adaptors (`map`, `filter`, `zip`, ...).
- `consume.rs`, `numeric.rs`, `compare.rs`: consumers (`reduce`, `find_first`,
  `collect`, `sum`, `cmp`, `min_by`, ...).
- `par.rs`: the trusted calls into rayon, one per operation; `serial.rs`: the one
  trusted call into itertools (`update`).
- `side.rs`: the `Either` that `partition_map` closures answer with.
- `lemmas.rs`, `laws.rs`: proofs; the public `law_*` functions (there, and the two on
  `cmp` in `compare.rs`) state what holds across operations and modes.
