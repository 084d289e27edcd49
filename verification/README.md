# perfbook

The computational kernels of a book on CPU and GPU performance in Rust,
written as a Verus library whose functions carry proved contracts, with a
small program around them that times and prints the measurements.

- `src/` — the verified library, one module per topic: the xorshift
  generator (`rng`), Collatz stopping times (`collatz`), pointer-chasing
  rings and Sattolo's cycle (`cycles`), matrix transposition (`transpose`),
  wrapping and exact sums (`sums`, `words`), boxed and arena linked lists
  (`lists`), call-cost arithmetic (`arith`), indirect dispatch
  (`dispatch`), a multiplicative hasher (`hashing`), branchy and branchless
  byte sums (`branch`), map and binary-search lookups (`lookup`,
  `tree_lookup`) and input builders (`data`).
- `tests/` — tests of the library on concrete values.
- `app/` — the measurement program: timing, printing, threads, the async
  runtime, FFI calls, memory mapping and the floating-point demonstrations.
  Run it with the name of a measurement, such as `random` or `transpose`.
