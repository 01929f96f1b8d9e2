# curdleproofs

An inner product argument over BLS12-381 for vectors of any length, written in
Verus. The library in `src/` is verified; `app/` puts it behind the types of
`ark_bls12_381`, any source of randomness, and any reader or writer.

A prover shows that `z` is the inner product of two committed vectors. Vectors
whose length is not a power of two are folded to the largest power of two below
it first, and halved from then on.

## Model

* A `Scalar` is an integer below the group order.
* A point is the multiple of the generator that it is. Commitments are thus inner
  products modulo the group order, and what the protocol does is arithmetic.
* The transcript is its state. What it absorbs and gives is named, not defined.

## Modules

| module | contents |
| --- | --- |
| `algebra` | residues, inverses and sums of products |
| `scalar`, `point`, `transcript` | the outside types and operations, with what is taken for granted of them |
| `folding` | how vectors are folded, and which rounds fold which entry |
| `protocol` | prover and verifier as functions of numbers |
| `blinders` | blinders that drop out of the inner product |
| `inner_product_argument` | proofs: making, verifying, writing and reading them |
| `msm_accumulator` | many checks in one, under random weights |
| `completeness` | why proofs of true statements are accepted |
| `encoding` | proofs and points as bytes |
| `util`, `crs`, `errors` | multiscalar multiplication, permutations, shuffling |

## What is proved

* Every function does what its contract says, and none panics on the inputs that
  its contract admits.
* A proof of a true statement passes both checks, and an accumulator whose checks
  hold still verifies after it (`completeness`).
* A check that is off by an invertible amount is noticed under all weights but
  one (`msm_accumulator`).
* A proof that was written is read back (`inner_product_argument`).
* Folding a vector down gives its inner product with the folding scalars, whose
  rounds are the binary digits of the index where the length is a power of two
  (`completeness`, `folding`).
