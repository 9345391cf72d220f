# arkworks-phase2

A verified library for the second phase of a Groth16 setup ceremony. It turns powers of tau into
the proving key of a circuit, takes contributions to the key, and verifies the transcript of the
contributions. Its behaviour is stated in contracts and proved by Verus.

## What is proved

- Powers before any contribution are those of 1, and a contribution of secrets makes powers of
  secrets powers of the products.
- Taking powers into Lagrange form and out of it undo each other.
- The key for a circuit holds exactly the combinations of the powers that the circuit's matrices
  ask for.
- A contribution multiplies delta by a scalar, divides the queries by it, and comes with a proof
  of knowledge that holds.
- A transcript that nothing but contributions made what it is, is accepted.
- In an accepted transcript every proof of knowledge holds for its challenge, which is the deltas
  before the contribution. A transcript or a transform with a proof that does not hold is refused.
- In an accepted transcript of a fresh key, the delta of the last contribution and the key's delta
  in the first group are the product of the contributed scalars. The key's delta in the second
  group enters by the queries alone.
- A transform of a key is refused the wrong way round, and where nothing changed.
- Vectors of points of the curve that have one ratio merge to points that have it.
- What is written of keys, transcripts and prepared powers is read back, and is refused where its
  end is missing.
- A ptau file holds the same whatever the order of its sections.
- Files in the ptau and radix formats are read as described, and every failure is described, too.

## Layout

- `src/curve.rs` states what points and scalars stand for: points of a group are multiples of its
  generator, and scalars are residues modulo its order.
- `src/bn254.rs` and `src/bls12_381.rs` hold the two pairings. Their arithmetic comes from
  arkworks; each call is behind a small trusted function whose contract is what the library
  builds on.
- `src/accumulator.rs`, `src/ptau.rs` and `src/radix.rs` hold the powers of tau and the files that
  they come in.
- `src/circuit.rs`, `src/key.rs`, `src/ratio.rs` and `src/transcript.rs` hold the ceremony.
- `src/canonical.rs` holds the byte encoding.
- `src/laws.rs` and `src/transform.rs` hold what relates several functions.
- `app/` holds files, random number generators and constraint systems around the library.
