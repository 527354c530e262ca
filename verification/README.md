# helix_interpreter

Two decisions of a graph-query interpreter, written and verified in
[Verus](https://github.com/verus-lang/verus).

- `src/limits.rs`: how many results a search may return, given what the query
  asks for, the access limit of the index and the default ceiling.
- `src/order_keys.rs`: how two rows compare under a list of sort keys.
- `src/stable_order.rs`: the order in which rows are delivered, and its laws.
- `src/sort.rs`: the merge sort that puts rows into that order.
- `src/order.rs`: ordering a stream step by step, where deadline checks and
  property reads are done by the caller.
- `src/order_run.rs`: what such a run does as a whole.
- `app/`: the asynchronous driver around the library.
- `tests/`: tests that run the library.

Values and rows may be of any type whose `Ord` is a total order.
