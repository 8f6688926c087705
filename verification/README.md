# golden_dkg

The verified core of Golden, a lightweight non-interactive distributed key
generation protocol, written in Verus. Every public function in `src/`
carries a `requires`/`ensures` contract that Verus proves, and everything in
`src/` is verified; the calls into curve, hash and transcript crates sit
behind small trusted wrappers whose contracts restate what those crates
document.

## What `src/` holds

- Group and scalar model (`group`, `tiny_group`, `jubjub_group`,
  `ristretto_cycle`, `bls_cycle`): every element is described by its discrete
  logarithm, every scalar by its value below the field order.
- Shamir sharing, Lagrange interpolation at zero and Feldman commitments
  (`shamir`, `interpolation`, `feldman`), with the reconstruction law.
- DKG configuration, participant registry, transcript roots and the canonical
  wire values (`dkg`, `participant`, `transcript`, `wire`, `wire_values`,
  `bytes`).
- Dealer messages: encoding, streaming parse, the public proof statement and
  the dealer-local dealing with its pad evaluator and prover passed in
  (`dealer_message`, `dealer_parse`, `dealer_roundtrip`, `dealer_proof`,
  `message_statement`, `deal`, `main_golden`, `dkg_output`).
- Multi-scalar multiplication by the bucket method, the window and tile
  schedule of the multi-core MSM, and the integer helpers of the proof layer
  (`pippenger`, `msm`, `util`, `cycle`, `jubjub_cycle`).
- The proof layer's curve cycles over Jubjub, Ristretto and BLS12-381 G1
  (`proof_cycle`, `jubjub_cycle`, `ristretto_cycle`, `bls_cycle`,
  `bls_scalar`), the proof byte formats (`proof_bytes`, `proof_errors`), the
  Merlin transcript protocol (`proof_transcript`), the verifier's
  inner-product challenges and scalars (`ipp_verify`), the inner-product and
  linear proof constructions (`ipp_prove`, `linear_prove`), the verification
  equations with single and batch verification (`r1cs_verify`) and the
  recombination of MSM tile sums (`tile_sum`).

## What is not here

- The Bulletproofs constraint-system layer: the R1CS prover and the
  verifier that builds a verification equation from a constraint system,
  linear combinations, and the Pedersen and Bulletproofs generator tables.
  The proof constructions, byte formats, transcript protocol and the
  checking of verification equations are part of this crate. The point
  operations of the constructions are provided for Jubjub and BLS12-381 G1.
- The eVRF receiver-pad relation (`GoldenCurve`, `receiver_pad` and the
  curve-specific `beta`): the dealing takes the pad evaluator and the prover
  as arguments. The rejection sampler behind `beta` (`sample_beta`) is here.
- The multi-threaded MSM over `blst` for BLS12-381 G1: its window and tile
  schedule is here, the threads and the `blst` tile calls are not.
- The group-generic standalone wire codecs of Feldman commitments,
  registries and configurations. Dealer messages, which carry the same
  values, are encoded and parsed by `dealer_message` and `dealer_parse`.
- The prime order of the scalar fields is not stated as a law of the
  `GoldenScalar` trait; where invertibility matters, contracts state the
  outcome in terms of the product of the values being nonzero modulo the
  field order.

`app/` holds what Verus does not check: random sampling, persistence and the
conversions to outside error types.
