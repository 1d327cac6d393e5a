# agnostir

Linear error-correcting codes over the KoalaBear prime field
(`p = 2^31 - 2^24 + 1`), the Merkle commitments and the interleaved
proximity test built on them, and the claims and sumcheck reductions of a
code-switching protocol.  Every function under `src/` is proved with Verus
against a contract stated over mathematical sequences and field values,
except the small trusted wrappers (marked `external_body`) that call the
outside crates: BLAKE3 hashing, field inversion, the random-number
generators, the shuffle, the sorts and the thread count.  Their contracts
are assumed, and each one's doc comment says what it claims.

## Layout

- `src/field.rs`: the field, each element held by its canonical value.
- `src/ring.rs`, `src/vectors.rs`: field expressions as reductions of
  integer expressions; sums, inner products, prefix sums, permutations.
- `src/linear.rs`: pointwise sums and multiples of vectors, and the
  lemmas that sums, running sums and sparse products are linear in them.
- `src/poly.rs`: multilinear extensions and the tables of `eq(z, .)`.
- `src/ntt.rs`: the wavelet (subset-sum) transform and its inverse, and
  matrix transposition.
- `src/codes/`: the codes (identity, tensor, expand-accumulate, Basefold,
  Brakedown, ERA and its optimized form with interleaving and sort-based
  permutations), all behind the `ErrorCorrectingCode` trait of `src/lib.rs`.
- `src/merkle.rs`: BLAKE3 Merkle trees over columns of field elements,
  openings and their verification.
- `src/interleaved_iopp.rs`: the interleaved proximity test: prover rounds,
  challenges and the verifier.
- `src/codeswitching/`: splitting claims into chunk claims, the oracles of
  the protocol, the inner-product, triple-product and permutation-transition
  sumchecks, the helper vectors of the claims generator, the claims
  generator itself (`claims_generator.rs`), and the reduce-IOR scaffold
  (`reduce_ior.rs`).
- `src/rng.rs`: the random-number generators the protocols draw from: rand's
  `SmallRng` for the challenges, and for the shuffles of `encode_rip` the
  xoshiro256++ generator that rand 0.8's `SmallRng` seeds.
- `tests/`: tests run against the compiled library.
- `app/`: the profiling and end-to-end programs (timing, printing, and the
  real-valued Brakedown parameters).
