# exaloglog

ExaLogLog, a sketch for approximate distinct counting, as a Verus-verified
library. A sketch with parameters `t`, `d` and `p` keeps `2^p` registers of
`6 + t + d` bits, packed little-endian into a byte vector. Each register holds
the largest update value seen for its index and, in its low `d` bits, which of
the `d` values below it were seen too.

## Layout

- `src/params.rs`: parameter limits, validation and the error type.
- `src/bits.rs`, `src/packed.rs`: bit-level models of bytes and registers, and
  the packed register reads and writes.
- `src/register.rs`, `src/register_laws.rs`: inserting and merging single
  registers, with the set of update values a register stands for.
- `src/downsize.rs`, `src/downsize_laws.rs`: moving a register to a sketch
  with smaller `d` and `p`.
- `src/sketch.rs`: the sketch itself: adding hashes, merging, downsizing,
  wrapping an existing state.
- `src/token.rs`: 32-bit tokens that carry what a register needs of a hash.
- `src/hashing.rs`: adding raw values through xxh3-64, a caller's
  `BuildHasher` or a caller's hash function.
- `src/estimate.rs`: what each register contributes to the likelihood
  function of the distinct count, and the coefficients summed over a sketch.
- `src/serial.rs`: the byte format of a sketch.
- `src/laws.rs`: properties of whole sketches: insertion order does not
  matter, merging and downsizing agree with inserting directly.
- `app/`: the benchmark program and the floating-point maximum-likelihood
  solver that turns the coefficients into an estimate.

Every executable function under `src/` is verified against its contract. The
trusted boundary is the call into xxhash-rust, the calls into std's
`BuildHasher::build_hasher`, `Hash::hash` and `Hasher::finish` (none of which
has a stated result), and the specification of `u64::count_ones` as the
number of one bits.
