//! Elements of the scalar field.
//!
//! A [`Scalar`] holds its integer as plain limbs; the arithmetic is that of `ark_bls12_381::Fr`,
//! reached through the private functions at the end of this file.
use ark_bls12_381::Fr;
use ark_ff::{batch_inversion, BigInt, Field, PrimeField};
use ark_serialize::{CanonicalDeserialize, CanonicalSerialize, SerializationError as ArkError};
use ark_std::rand::rngs::StdRng;
use ark_std::UniformRand;
use vstd::prelude::*;

use crate::algebra::{
    bytes_value, group_order, is_inverse, is_reduced, le_bytes, lemma_residue_reduced, limbs_value,
    residue,
};
use crate::errors::SerializationError;

verus! {

/// The random number generator that blinders and weights are drawn from.
#[verifier::external_type_specification]
#[verifier::external_body]
pub struct ExStdRng(StdRng);

/// An element of the scalar field of BLS12-381.
///
/// Its view is the least non-negative integer of its residue class.
#[derive(Clone, Copy, Debug, PartialEq, Eq)]
pub struct Scalar {
    pub(crate) limbs: [u64; 4],
}

impl View for Scalar {
    type V = int;

    closed spec fn view(&self) -> int {
        residue(limbs_value(self.limbs@))
    }
}

/// The integers of a sequence of scalars.
pub open spec fn scalar_values(v: Seq<Scalar>) -> Seq<int> {
    Seq::new(v.len(), |i: int| v[i]@)
}

pub broadcast proof fn lemma_scalar_reduced(s: Scalar)
    ensures
        is_reduced(#[trigger] s@),
{
    lemma_residue_reduced(limbs_value(s.limbs@));
}

/// What reading a scalar from the front of `bytes` gives: an integer below the group order, in
/// little-endian order.
pub open spec fn scalar_decoding(bytes: Seq<u8>) -> Result<int, SerializationError> {
    if bytes.len() < 32 {
        Err(SerializationError::IoError)
    } else if bytes_value(bytes.take(32)) < group_order() {
        Ok(bytes_value(bytes.take(32)))
    } else {
        Err(SerializationError::InvalidData)
    }
}

/// `f` gives a scalar and a generator for every generator.
pub open spec fn gives_scalars(f: spec_fn(StdRng) -> (int, StdRng)) -> bool {
    forall|rng: StdRng| is_reduced((#[trigger] f(rng)).0)
}

/// The scalar that is drawn from a generator, and the generator afterwards.
///
/// Nothing is said of the scalar but that it depends on the generator alone.
pub closed spec fn draw(rng: StdRng) -> (int, StdRng) {
    (choose|f: spec_fn(StdRng) -> (int, StdRng)| gives_scalars(f))(rng)
}

/// The generator after `n` draws.
pub open spec fn after_draws(rng: StdRng, n: nat) -> StdRng
    decreases n,
{
    if n == 0 {
        rng
    } else {
        draw(after_draws(rng, (n - 1) as nat)).1
    }
}

/// The first `n` scalars that are drawn from a generator.
pub open spec fn drawn_scalars(rng: StdRng, n: nat) -> Seq<int> {
    Seq::new(n, |i: int| draw(after_draws(rng, i as nat)).0)
}

/// No draw leaves the generator as it is, and one draw gives one scalar and the generator after it.
pub proof fn lemma_single_draw(rng: StdRng)
    ensures
        after_draws(rng, 0) == rng,
        after_draws(rng, 1) == draw(rng).1,
        drawn_scalars(rng, 0) == Seq::<int>::empty(),
        drawn_scalars(rng, 1) == seq![draw(rng).0],
{
    reveal_with_fuel(after_draws, 2);
    assert(drawn_scalars(rng, 0) =~= Seq::<int>::empty());
    assert(drawn_scalars(rng, 1) =~= seq![draw(rng).0]);
}

/// Drawing `a + b` scalars is drawing `a` and then, from the generator that this leaves, `b`.
pub proof fn lemma_draws_in_order(rng: StdRng, a: nat, b: nat)
    ensures
        after_draws(rng, a + b) == after_draws(after_draws(rng, a), b),
        drawn_scalars(rng, a + b) == drawn_scalars(rng, a) + drawn_scalars(after_draws(rng, a), b),
{
    lemma_after_draws(rng, a, b);
    assert forall|i: int| 0 <= i < b implies after_draws(rng, #[trigger] (a + i) as nat)
        == after_draws(after_draws(rng, a), i as nat) by {
        lemma_after_draws(rng, a, i as nat);
    }
    assert forall|i: int| 0 <= i < a + b implies #[trigger] drawn_scalars(rng, a + b)[i] == (
    drawn_scalars(rng, a) + drawn_scalars(after_draws(rng, a), b))[i] by {
        if i >= a {
            let j = i - a;
            assert(after_draws(rng, (a + j) as nat) == after_draws(after_draws(rng, a), j as nat));
        }
    }
    assert(drawn_scalars(rng, a + b) =~= drawn_scalars(rng, a) + drawn_scalars(
        after_draws(rng, a),
        b,
    ));
}

proof fn lemma_after_draws(rng: StdRng, a: nat, b: nat)
    ensures
        after_draws(rng, a + b) == after_draws(after_draws(rng, a), b),
    decreases b,
{
    if b != 0 {
        lemma_after_draws(rng, a, (b - 1) as nat);
    }
}

impl Scalar {
    /// The limbs hold an integer below the group order.
    #[verifier::type_invariant]
    spec fn canonical(self) -> bool {
        limbs_value(self.limbs@) < group_order()
    }

    /// The scalar of a machine integer.
    pub fn from_u64(v: u64) -> (s: Scalar)
        ensures
            s@ == v,
    {
        scalar_from_u64(v)
    }

    /// The little-endian bytes of the scalar's integer.
    pub fn to_bytes(&self) -> (bytes: Vec<u8>)
        ensures
            bytes@ == le_bytes(self@, 32),
    {
        scalar_to_bytes(self)
    }

    /// Reads a scalar from the front of `bytes`.
    pub fn from_bytes(bytes: &[u8]) -> (res: Result<Scalar, SerializationError>)
        ensures
            match res {
                Ok(s) => scalar_decoding(bytes@) == Ok::<int, SerializationError>(s@),
                Err(e) => scalar_decoding(bytes@) == Err::<int, SerializationError>(e),
            },
    {
        scalar_from_bytes(bytes)
    }
}

/// `Fr::from(u64)`: the residue class of `v`, which is below the group order.
#[verifier::external_body]
fn scalar_from_u64(v: u64) -> (r: Scalar)
    ensures
        r@ == v,
{
    Scalar { limbs: Fr::from(v).into_bigint().0 }
}

/// `+` of `Fr`: addition modulo the group order.
#[verifier::external_body]
pub(crate) fn scalar_add(a: &Scalar, b: &Scalar) -> (r: Scalar)
    ensures
        r@ == residue(a@ + b@),
{
    let x = Fr::from_bigint(BigInt(a.limbs)).unwrap();
    let y = Fr::from_bigint(BigInt(b.limbs)).unwrap();
    Scalar { limbs: (x + y).into_bigint().0 }
}

/// `-` of `Fr`: subtraction modulo the group order.
#[verifier::external_body]
pub(crate) fn scalar_sub(a: &Scalar, b: &Scalar) -> (r: Scalar)
    ensures
        r@ == residue(a@ - b@),
{
    let x = Fr::from_bigint(BigInt(a.limbs)).unwrap();
    let y = Fr::from_bigint(BigInt(b.limbs)).unwrap();
    Scalar { limbs: (x - y).into_bigint().0 }
}

/// `*` of `Fr`: multiplication modulo the group order.
#[verifier::external_body]
pub(crate) fn scalar_mul(a: &Scalar, b: &Scalar) -> (r: Scalar)
    ensures
        r@ == residue(a@ * b@),
{
    let x = Fr::from_bigint(BigInt(a.limbs)).unwrap();
    let y = Fr::from_bigint(BigInt(b.limbs)).unwrap();
    Scalar { limbs: (x * y).into_bigint().0 }
}

/// Unary `-` of `Fr`: negation modulo the group order.
#[verifier::external_body]
pub(crate) fn scalar_neg(a: &Scalar) -> (r: Scalar)
    ensures
        r@ == residue(-a@),
{
    Scalar { limbs: (-Fr::from_bigint(BigInt(a.limbs)).unwrap()).into_bigint().0 }
}

/// `Field::inverse` of `Fr`: the multiplicative inverse, which every element but 0 has.
#[verifier::external_body]
pub(crate) fn scalar_inverse(a: &Scalar) -> (r: Option<Scalar>)
    ensures
        match r {
            Some(b) => a@ != 0 && is_inverse(a@, b@),
            None => a@ == 0,
        },
{
    let x = Fr::from_bigint(BigInt(a.limbs)).unwrap();
    x.inverse().map(|y| Scalar { limbs: y.into_bigint().0 })
}

/// `ark_ff::batch_inversion` over `Fr`: every entry but 0 becomes its inverse, and 0 stays.
#[verifier::external_body]
pub(crate) fn scalar_batch_inversion(v: &[Scalar]) -> (r: Vec<Scalar>)
    ensures
        r@.len() == v@.len(),
        forall|i: int|
            0 <= i < r@.len() ==> if v@[i]@ == 0 {
                (#[trigger] r@[i])@ == 0
            } else {
                is_inverse(v@[i]@, r@[i]@)
            },
{
    let mut x: Vec<Fr> = v.iter().map(|s| Fr::from_bigint(BigInt(s.limbs)).unwrap()).collect();
    batch_inversion(&mut x);
    x.iter().map(|y| Scalar { limbs: y.into_bigint().0 }).collect()
}

/// `PrimeField::from_le_bytes_mod_order` of `Fr`: the little-endian integer of `bytes`, reduced.
#[verifier::external_body]
pub(crate) fn scalar_from_le_bytes_mod_order(bytes: &[u8]) -> (r: Scalar)
    ensures
        r@ == residue(bytes_value(bytes@)),
{
    Scalar { limbs: Fr::from_le_bytes_mod_order(bytes).into_bigint().0 }
}

/// `CanonicalSerialize::serialize_compressed` of `Fr` into memory: the 32 little-endian bytes of
/// the integer.
#[verifier::external_body]
fn scalar_to_bytes(s: &Scalar) -> (bytes: Vec<u8>)
    ensures
        bytes@ == le_bytes(s@, 32),
{
    let mut bytes: Vec<u8> = Vec::new();
    Fr::from_bigint(BigInt(s.limbs)).unwrap().serialize_compressed(&mut bytes).unwrap();
    bytes
}

/// `CanonicalDeserialize::deserialize_compressed` of `Fr` from memory: the little-endian integer
/// of the first 32 bytes, which has to be below the group order.
#[verifier::external_body]
fn scalar_from_bytes(bytes: &[u8]) -> (res: Result<Scalar, SerializationError>)
    ensures
        match res {
            Ok(s) => scalar_decoding(bytes@) == Ok::<int, SerializationError>(s@),
            Err(e) => scalar_decoding(bytes@) == Err::<int, SerializationError>(e),
        },
{
    match Fr::deserialize_compressed(bytes) {
        Ok(x) => Ok(Scalar { limbs: x.into_bigint().0 }),
        Err(ArkError::NotEnoughSpace) => Err(SerializationError::NotEnoughSpace),
        Err(ArkError::InvalidData) => Err(SerializationError::InvalidData),
        Err(ArkError::UnexpectedFlags) => Err(SerializationError::UnexpectedFlags),
        Err(ArkError::IoError(_)) => Err(SerializationError::IoError),
    }
}

/// `UniformRand::rand` of `Fr` with a `StdRng`, whose algorithm is deterministic: the scalar
/// and the generator afterwards depend on the generator before alone. Which scalar it is, is
/// left open.
#[verifier::external_body]
pub(crate) fn scalar_random(rng: &mut StdRng) -> (r: Scalar)
    ensures
        r@ == draw(*old(rng)).0,
        *final(rng) == draw(*old(rng)).1,
{
    Scalar { limbs: Fr::rand(rng).into_bigint().0 }
}

} // verus!
