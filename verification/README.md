# plonkish_backend

Building blocks of multilinear polynomial commitment schemes over the
Mersenne prime field `2^61 - 1`, written in Verus: every function states its
result in its contract, and some properties that relate several functions,
such as the completeness of Merkle openings and of several verifiers'
checks on honest answers, are proved as lemmas. The field's multiplicative
group has two-adicity one, so its own two-power domain is `{1, -1}`; the
codes take their domains from a `RootOfUnity` (`src/domain.rs`), any element
whose `2^k`-th power is one, which the caller chooses.

## Layout

- `src/mersenne_61_mont.rs`: the field, its operations and their laws.
- `src/domain.rs`: the roots of unity that generate the codes' domains.
- `src/hash.rs`, `src/merkle.rs`, `src/merkle_tree.rs`, `src/mmcs.rs`:
  SHA-256 Merkle trees over codewords, over byte leaves and over codewords of
  several heights, with the completeness of their openings.
- `src/coset.rs`, `src/multilinear.rs`, `src/interpolation.rs`: cosets and
  their transforms, multilinear polynomials by their values, and committed
  codewords with their query results.
- `src/deepfold.rs`, `src/deepfold_protocol.rs`: the Deepfold evaluation
  claims, prover and verifier, and the scheme's opening and verification.
- `src/virgo.rs`: the Virgo prover and verifier.
- `src/fold.rs`, `src/basefold.rs`, `src/p3_fri.rs`, `src/zeromorph_fri*.rs`,
  `src/batched_fri.rs`: the folding rounds, encodings and scalars of the
  FRI-based schemes.
- `src/zeromorph_fri_v4_pcs.rs`, `src/batched_fri_pcs.rs`: the folding-based
  Zeromorph scheme and batched FRI as whole schemes (commitment, opening,
  verification), with the verifier's challenges handed in by the caller, and
  their completeness lemmas.
- `src/matrix.rs`, `src/poly_loader.rs`: the containers in which matrices are
  exchanged.
- `src/bench_cli.rs`: the text edits the benchmark driver makes.
- `app/`: the benchmark driver and the reading and writing of containers.
- `tests/`: tests on concrete values.
