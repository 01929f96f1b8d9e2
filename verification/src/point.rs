//! Elements of the group G1.
//!
//! The group is cyclic and its order is prime, so that an element is a multiple of the generator
//! by a number that is unique modulo the order. That number is the view of a point: in contracts,
//! adding points adds their views and multiplying a point by a scalar multiplies them.
//!
//! Points hold their coordinates as plain limbs; the group operations are those of
//! `ark_bls12_381`, reached through the private functions at the end of this file. A point can only
//! be made by these functions, each of which gives an element of the group.
use ark_bls12_381::{Fq, Fr, G1Affine, G1Projective};
use ark_ec::{AffineRepr, CurveGroup, VariableBaseMSM};
use ark_ff::{BigInt, PrimeField};
use ark_serialize::{CanonicalDeserialize, CanonicalSerialize, SerializationError as ArkError};
use ark_std::Zero;
use vstd::prelude::*;

use crate::algebra::{dot, is_reduced, lemma_residue_reduced, residue};
use crate::errors::SerializationError;
use crate::scalar::{scalar_values, Scalar};

verus! {

/// The affine coordinates, in Montgomery form, of the generator multiplied by `k`, and whether
/// that is the point at infinity.
pub uninterp spec fn generator_multiple(k: int) -> (Seq<u64>, Seq<u64>, bool);

/// The affine coordinates of the point with the Jacobian coordinates `x`, `y` and `z`, all of them
/// in Montgomery form.
pub uninterp spec fn normalized(
    x: Seq<u64>,
    y: Seq<u64>,
    z: Seq<u64>,
) -> (Seq<u64>, Seq<u64>, bool);

/// The compressed encoding of the generator multiplied by `k`.
pub uninterp spec fn point_encoding(k: int) -> Seq<u8>;

/// The multiple of the generator that the compressed encoding `bytes` stands for, or why it stands
/// for none.
pub uninterp spec fn encoded_point(bytes: Seq<u8>) -> Result<int, SerializationError>;

/// The reduced number by which the generator is multiplied to give the point with these affine
/// coordinates.
pub open spec fn discrete_log(coordinates: (Seq<u64>, Seq<u64>, bool)) -> int {
    residue(choose|k: int| #[trigger] generator_multiple(k) == coordinates)
}

/// What reading a compressed point from the front of `bytes` gives.
pub open spec fn point_decoding(bytes: Seq<u8>) -> Result<int, SerializationError> {
    if bytes.len() < 48 {
        Err(SerializationError::InvalidData)
    } else {
        encoded_point(bytes.take(48))
    }
}

/// An element of G1 in affine coordinates.
#[derive(Clone, Copy, Debug)]
pub struct AffinePoint {
    x: [u64; 6],
    y: [u64; 6],
    infinity: bool,
}

/// An element of G1 in Jacobian coordinates.
#[derive(Clone, Copy, Debug)]
pub struct ProjectivePoint {
    x: [u64; 6],
    y: [u64; 6],
    z: [u64; 6],
}

impl View for AffinePoint {
    type V = int;

    closed spec fn view(&self) -> int {
        discrete_log(self.coordinates())
    }
}

impl View for ProjectivePoint {
    type V = int;

    closed spec fn view(&self) -> int {
        discrete_log(self.coordinates())
    }
}

/// The views of a sequence of points in affine coordinates.
pub open spec fn affine_values(v: Seq<AffinePoint>) -> Seq<int> {
    Seq::new(v.len(), |i: int| v[i]@)
}

/// The views of a sequence of points in Jacobian coordinates.
pub open spec fn projective_values(v: Seq<ProjectivePoint>) -> Seq<int> {
    Seq::new(v.len(), |i: int| v[i]@)
}

pub broadcast proof fn lemma_affine_reduced(p: AffinePoint)
    ensures
        is_reduced(#[trigger] p@),
{
    lemma_residue_reduced(choose|k: int| #[trigger] generator_multiple(k) == p.coordinates());
}

pub broadcast proof fn lemma_projective_reduced(p: ProjectivePoint)
    ensures
        is_reduced(#[trigger] p@),
{
    lemma_residue_reduced(choose|k: int| #[trigger] generator_multiple(k) == p.coordinates());
}

impl AffinePoint {
    pub closed spec fn coordinates(self) -> (Seq<u64>, Seq<u64>, bool) {
        (self.x@, self.y@, self.infinity)
    }

    /// The point is a multiple of the generator.
    #[verifier::type_invariant]
    spec fn in_group(self) -> bool {
        self.coordinates() == generator_multiple(self@)
    }

    /// The generator of the group.
    pub fn generator() -> (p: AffinePoint)
        ensures
            p@ == 1,
            p.coordinates() == generator_multiple(1),
    {
        affine_generator()
    }

    /// The point multiplied by a scalar.
    pub fn times(&self, s: &Scalar) -> (p: ProjectivePoint)
        ensures
            p@ == residue(self@ * s@),
    {
        affine_mul(self, s)
    }
}

impl ProjectivePoint {
    /// The affine coordinates of the point.
    pub closed spec fn coordinates(self) -> (Seq<u64>, Seq<u64>, bool) {
        normalized(self.x@, self.y@, self.z@)
    }

    /// The point is a multiple of the generator.
    #[verifier::type_invariant]
    spec fn in_group(self) -> bool {
        self.coordinates() == generator_multiple(self@)
    }

    /// The same point in affine coordinates.
    pub fn to_affine(&self) -> (p: AffinePoint)
        ensures
            p@ == self@,
            p.coordinates() == self.coordinates(),
    {
        projective_into_affine(self)
    }

    /// Whether two points are the same element of the group.
    pub fn same_point(&self, other: &ProjectivePoint) -> (same: bool)
        ensures
            same == (self@ == other@),
    {
        projective_eq(self, other)
    }

    /// The compressed encoding of the point.
    pub fn to_bytes(&self) -> (bytes: Vec<u8>)
        ensures
            bytes@ == point_encoding(self@),
            bytes@.len() == 48,
    {
        projective_to_bytes(self)
    }

    /// Reads a point from the compressed encoding at the front of `bytes`.
    pub fn from_bytes(bytes: &[u8]) -> (res: Result<ProjectivePoint, SerializationError>)
        ensures
            match res {
                Ok(p) => point_decoding(bytes@) == Ok::<int, SerializationError>(p@),
                Err(e) => point_decoding(bytes@) == Err::<int, SerializationError>(e),
            },
            forall|k: int|
                is_reduced(k) && #[trigger] point_encoding(k).is_prefix_of(bytes@)
                    ==> res is Ok && res->Ok_0@ == k && point_encoding(res->Ok_0@).len() == 48,
    {
        projective_from_bytes(bytes)
    }
}

/// `AffineRepr::generator` of `G1Affine`: the generator, once.
#[verifier::external_body]
fn affine_generator() -> (r: AffinePoint)
    ensures
        r@ == 1,
        r.coordinates() == generator_multiple(1),
{
    let g = G1Affine::generator();
    AffinePoint { x: g.x.0.0, y: g.y.0.0, infinity: g.infinity }
}

/// `*` of `G1Affine` and `Fr`: the point multiplied by the scalar.
#[verifier::external_body]
pub(crate) fn affine_mul(p: &AffinePoint, s: &Scalar) -> (r: ProjectivePoint)
    ensures
        r@ == residue(p@ * s@),
{
    let (x, y) = (Fq::new_unchecked(BigInt(p.x)), Fq::new_unchecked(BigInt(p.y)));
    let q = G1Affine { x, y, infinity: p.infinity } * Fr::from_bigint(BigInt(s.limbs)).unwrap();
    ProjectivePoint { x: q.x.0.0, y: q.y.0.0, z: q.z.0.0 }
}

/// `*` of `G1Projective` and `Fr`: the point multiplied by the scalar.
#[verifier::external_body]
pub(crate) fn projective_mul(p: &ProjectivePoint, s: &Scalar) -> (r: ProjectivePoint)
    ensures
        r@ == residue(p@ * s@),
{
    let (x, y) = (Fq::new_unchecked(BigInt(p.x)), Fq::new_unchecked(BigInt(p.y)));
    let q = G1Projective::new_unchecked(x, y, Fq::new_unchecked(BigInt(p.z)))
        * Fr::from_bigint(BigInt(s.limbs)).unwrap();
    ProjectivePoint { x: q.x.0.0, y: q.y.0.0, z: q.z.0.0 }
}

/// `Zero::zero` of `G1Projective`: the neutral element, which is the generator multiplied by 0.
#[verifier::external_body]
pub(crate) fn projective_zero() -> (r: ProjectivePoint)
    ensures
        r@ == 0,
{
    let q = G1Projective::zero();
    ProjectivePoint { x: q.x.0.0, y: q.y.0.0, z: q.z.0.0 }
}

/// `+` of two `G1Projective`: the sum in the group.
#[verifier::external_body]
pub(crate) fn projective_add(a: &ProjectivePoint, b: &ProjectivePoint) -> (r: ProjectivePoint)
    ensures
        r@ == residue(a@ + b@),
{
    let (ax, ay) = (Fq::new_unchecked(BigInt(a.x)), Fq::new_unchecked(BigInt(a.y)));
    let (bx, by) = (Fq::new_unchecked(BigInt(b.x)), Fq::new_unchecked(BigInt(b.y)));
    let q = G1Projective::new_unchecked(ax, ay, Fq::new_unchecked(BigInt(a.z)))
        + G1Projective::new_unchecked(bx, by, Fq::new_unchecked(BigInt(b.z)));
    ProjectivePoint { x: q.x.0.0, y: q.y.0.0, z: q.z.0.0 }
}

/// `+` of a `G1Affine` and a `G1Projective`: the sum in the group.
#[verifier::external_body]
pub(crate) fn affine_add(a: &AffinePoint, b: &ProjectivePoint) -> (r: ProjectivePoint)
    ensures
        r@ == residue(a@ + b@),
{
    let (ax, ay) = (Fq::new_unchecked(BigInt(a.x)), Fq::new_unchecked(BigInt(a.y)));
    let (bx, by) = (Fq::new_unchecked(BigInt(b.x)), Fq::new_unchecked(BigInt(b.y)));
    let q = G1Affine { x: ax, y: ay, infinity: a.infinity }
        + G1Projective::new_unchecked(bx, by, Fq::new_unchecked(BigInt(b.z)));
    ProjectivePoint { x: q.x.0.0, y: q.y.0.0, z: q.z.0.0 }
}

/// `CurveGroup::into_affine` of `G1Projective`: the same point in affine coordinates.
#[verifier::external_body]
fn projective_into_affine(p: &ProjectivePoint) -> (r: AffinePoint)
    ensures
        r@ == p@,
        r.coordinates() == normalized(p.x@, p.y@, p.z@),
{
    let (x, y) = (Fq::new_unchecked(BigInt(p.x)), Fq::new_unchecked(BigInt(p.y)));
    let a = G1Projective::new_unchecked(x, y, Fq::new_unchecked(BigInt(p.z))).into_affine();
    AffinePoint { x: a.x.0.0, y: a.y.0.0, infinity: a.infinity }
}

/// `CurveGroup::normalize_batch` of `G1Projective`: the same points in affine coordinates.
#[verifier::external_body]
pub(crate) fn projective_normalize_batch(v: &[ProjectivePoint]) -> (r: Vec<AffinePoint>)
    ensures
        affine_values(r@) == projective_values(v@),
{
    let q: Vec<G1Projective> = v.iter().map(|p| G1Projective::new_unchecked(
        Fq::new_unchecked(BigInt(p.x)),
        Fq::new_unchecked(BigInt(p.y)),
        Fq::new_unchecked(BigInt(p.z)),
    )).collect();
    let r = G1Projective::normalize_batch(&q);
    r.iter().map(|a| AffinePoint { x: a.x.0.0, y: a.y.0.0, infinity: a.infinity }).collect()
}

/// `VariableBaseMSM::msm` of `G1Projective`: the sum of the points, each multiplied by its scalar.
/// It succeeds on slices of one length.
#[verifier::external_body]
pub(crate) fn affine_msm(points: &[AffinePoint], scalars: &[Scalar]) -> (r: ProjectivePoint)
    requires
        points@.len() == scalars@.len(),
    ensures
        r@ == dot(affine_values(points@), scalar_values(scalars@)),
{
    let p: Vec<G1Affine> = points.iter().map(|p| G1Affine {
        x: Fq::new_unchecked(BigInt(p.x)),
        y: Fq::new_unchecked(BigInt(p.y)),
        infinity: p.infinity,
    }).collect();
    let s: Vec<Fr> = scalars.iter().map(|s| Fr::from_bigint(BigInt(s.limbs)).unwrap()).collect();
    let q = G1Projective::msm(&p, &s).unwrap();
    ProjectivePoint { x: q.x.0.0, y: q.y.0.0, z: q.z.0.0 }
}

/// `==` of two `G1Projective`: whether they are the same element of the group.
#[verifier::external_body]
fn projective_eq(a: &ProjectivePoint, b: &ProjectivePoint) -> (r: bool)
    ensures
        r == (a@ == b@),
{
    let (ax, ay) = (Fq::new_unchecked(BigInt(a.x)), Fq::new_unchecked(BigInt(a.y)));
    let (bx, by) = (Fq::new_unchecked(BigInt(b.x)), Fq::new_unchecked(BigInt(b.y)));
    G1Projective::new_unchecked(ax, ay, Fq::new_unchecked(BigInt(a.z)))
        == G1Projective::new_unchecked(bx, by, Fq::new_unchecked(BigInt(b.z)))
}

/// `CanonicalSerialize::serialize_compressed` of `G1Projective` into memory: 48 bytes that depend
/// on the element of the group alone.
#[verifier::external_body]
fn projective_to_bytes(p: &ProjectivePoint) -> (bytes: Vec<u8>)
    ensures
        bytes@ == point_encoding(p@),
        bytes@.len() == 48,
{
    let mut bytes: Vec<u8> = Vec::new();
    let (x, y) = (Fq::new_unchecked(BigInt(p.x)), Fq::new_unchecked(BigInt(p.y)));
    let q = G1Projective::new_unchecked(x, y, Fq::new_unchecked(BigInt(p.z)));
    q.serialize_compressed(&mut bytes).unwrap();
    bytes
}

/// `CanonicalDeserialize::deserialize_compressed` of `G1Projective` from memory: reads 48 bytes,
/// refuses what encodes no element of the group, and reads back what `serialize_compressed` wrote,
/// which is 48 bytes long.
#[verifier::external_body]
fn projective_from_bytes(bytes: &[u8]) -> (res: Result<ProjectivePoint, SerializationError>)
    ensures
        match res {
            Ok(p) => bytes@.len() >= 48 && encoded_point(bytes@.take(48)) == Ok::<
                int,
                SerializationError,
            >(p@),
            Err(e) => point_decoding(bytes@) == Err::<int, SerializationError>(e),
        },
        forall|k: int|
            is_reduced(k) && #[trigger] point_encoding(k).is_prefix_of(bytes@)
                ==> res is Ok && res->Ok_0@ == k && point_encoding(res->Ok_0@).len() == 48,
{
    match G1Projective::deserialize_compressed(bytes) {
        Ok(q) => Ok(ProjectivePoint { x: q.x.0.0, y: q.y.0.0, z: q.z.0.0 }),
        Err(ArkError::NotEnoughSpace) => Err(SerializationError::NotEnoughSpace),
        Err(ArkError::InvalidData) => Err(SerializationError::InvalidData),
        Err(ArkError::UnexpectedFlags) => Err(SerializationError::UnexpectedFlags),
        Err(ArkError::IoError(_)) => Err(SerializationError::IoError),
    }
}

} // verus!
