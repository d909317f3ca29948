# zkvm

A small STARK proving pipeline with machine-checked contracts: prime
fields, polynomials and the FFT, Merkle commitments over Poseidon, a
Fiat-Shamir transcript, FRI, a toy CPU with its AIR, and two provers with
their verifiers. Every function of the library has `requires`/`ensures`
clauses that Verus proves. The CPU prover's contract fixes its statement,
trace commitment and query openings; that its proofs are accepted is
proved (`lemma_honest_proof_accepted`) for compositions of low degree, a
bound the library does not prove for the CPU's constraints.

## Layout

- `src/field.rs`, `toyfield.rs`, `goldilocks.rs`: the field interface and
  GF(97) and Goldilocks; `primality.rs`, `goldilocks_prime.rs`: the gcd,
  Euclid's lemma and the proof that the Goldilocks modulus is prime.
- `src/poly.rs`, `fft.rs`, `dft.rs`, `lde.rs`, `interpolate.rs`: polynomial
  arithmetic, the radix-2 FFT and its inverse, low-degree extension, and
  Lagrange and FFT interpolation.
- `src/poly_laws.rs`, `dft_laws.rs`: evaluation laws (sums, scaling,
  products, cosets), orthogonality of roots of unity, DFT inversion and
  the convolution theorem.
- `src/poseidon.rs`, `merkle.rs`, `transcript.rs`: hashing, commitments and
  the challenge transcript.
- `src/fold.rs`, `layers.rs`, `fri_laws.rs`: FRI folding, the commit and
  query phases, and FRI completeness.
- `src/opcodes.rs`, `cpu.rs`, `trace.rs`, `air_for_isa.rs`, `constraints.rs`,
  `air_laws.rs`: the toy instruction set, its execution trace and AIR.
- `src/cpu_prover.rs`, `cpu_verifier.rs`, `statement.rs`,
  `program_encoding.rs`: the CPU proof system, and its completeness for a
  composition of low degree.
- `src/toystark/`: a minimal STARK for an arithmetic progression, with a
  proof that an honest proof is accepted.
- `src/cpu_exports.rs`, `toy_stark_export.rs`: the data behind the
  visualizer views.
- `app/`: the command-line program that writes those views as JSON.
- `tests/`: executable tests.

## Prime fields

Both fields are proved prime in the sense the proofs need: no zero
divisors, and `v^(p-2)` (or the table entry, for GF(97)) is the inverse of
every nonzero `v`. For GF(97) this is checked value by value; for
Goldilocks, `src/goldilocks_prime.rs` shows that 7 has multiplicative
order `p - 1` (Lucas's criterion, from the factorisation
`p - 1 = 2^32 * 3 * 5 * 17 * 257 * 65537`), so every nonzero residue is a
power of 7. Every law of the library therefore holds on both fields.
