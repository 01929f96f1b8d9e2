//! The inner product argument.
#![allow(non_snake_case)]
use ark_std::rand::rngs::StdRng;
use merlin::Transcript;
use vstd::arithmetic::mul::lemma_mul_is_commutative;
use vstd::prelude::*;
use vstd::slice::slice_subrange;

use crate::algebra::{
    all_reduced, inverse, inverses, is_inverse, le_bytes, lemma_congruent_mul,
    lemma_inverse_of_zero, lemma_inverse_unique, lemma_le_bytes_value, lemma_residue_add,
    lemma_residue_mul, lemma_residue_of_reduced, lemma_residue_twice, residue,
};
use crate::blinders::{draw_outcome, proven_from_draws, proven_with_draws, solve_ipa_blinders};
use crate::encoding::{
    lemma_proof_read_back, points_encoding, proof_decoding, proof_encoding, reads_back_parts,
    reduced_proof, rounds_sending, starts_with_proof,
};
use crate::errors::{ProofError, SerializationError};
use crate::folding::{
    ceil_log2, first_len, fold_points, fold_scalars, folded_rounds, left, lemma_fold_shape,
    lemma_folded_rounds_in_order, right,
};
use crate::msm_accumulator::{accumulated, both_accumulated, MsmAccumulator, MsmCheck};
use crate::point::{
    affine_values, lemma_projective_reduced, point_encoding, projective_add, projective_mul,
    projective_values, AffinePoint, ProjectivePoint,
};
use crate::protocol::{
    after_round, after_rounds, blinded, challenge_product, first_check, folded, folding_scalars,
    inverses_exist, invertible, lemma_challenge_product_reduced, lemma_round_challenges_len,
    lemma_round_challenges_push, opening, preceded, prove, prove_rounds, proven, prover_challenges,
    round_challenge, round_challenges, round_message, second_check, sent_L_C, sent_L_D, sent_R_C,
    sent_R_D, verification, verifier_challenges, Opening, ProofModel, RoundModel, Rounds, Vectors,
};
use crate::scalar::{
    after_draws, draw, drawn_scalars, lemma_scalar_reduced, scalar_add, scalar_batch_inversion,
    scalar_inverse, scalar_mul, scalar_random, scalar_values, Scalar,
};
use crate::transcript::{append_points, append_scalar, get_and_append_challenge, transcript_state};
use crate::util::{
    deserialize_g1projective_vec, generate_blinders, get_verification_scalars_bitstring,
    inner_product, msm, msm_from_projective, serialize_g1projective_vec,
};

verus! {

/// An IPA proof object.
#[derive(Debug)]
pub struct InnerProductProof {
    B_c: ProjectivePoint,
    B_d: ProjectivePoint,
    vec_L_C: Vec<ProjectivePoint>,
    vec_R_C: Vec<ProjectivePoint>,
    vec_L_D: Vec<ProjectivePoint>,
    vec_R_D: Vec<ProjectivePoint>,
    c_final: Scalar,
    d_final: Scalar,
}

/// The rounds whose parts are collected in four vectors.
spec fn rounds_of(
    L_C: Seq<ProjectivePoint>,
    R_C: Seq<ProjectivePoint>,
    L_D: Seq<ProjectivePoint>,
    R_D: Seq<ProjectivePoint>,
) -> Seq<RoundModel> {
    Seq::new(
        L_C.len(),
        |i: int| RoundModel { L_C: L_C[i]@, L_D: L_D[i]@, R_C: R_C[i]@, R_D: R_D[i]@ },
    )
}

impl View for InnerProductProof {
    type V = ProofModel;

    closed spec fn view(&self) -> ProofModel {
        ProofModel {
            B_c: self.B_c@,
            B_d: self.B_d@,
            rounds: rounds_of(self.vec_L_C@, self.vec_R_C@, self.vec_L_D@, self.vec_R_D@),
            c_final: self.c_final@,
            d_final: self.d_final@,
        }
    }
}

/// The vectors that a proof is about.
pub open spec fn vectors(
    c: Seq<Scalar>,
    d: Seq<Scalar>,
    G: Seq<AffinePoint>,
    G_prime: Seq<AffinePoint>,
) -> Vectors {
    Vectors {
        c: scalar_values(c),
        d: scalar_values(d),
        G: affine_values(G),
        G_prime: affine_values(G_prime),
    }
}

/// The first step of prover and verifier: appends the statement and the blinder commitments, and
/// draws `alpha` and `beta`.
fn open_statement(
    C: &ProjectivePoint,
    D: &ProjectivePoint,
    z: &Scalar,
    B_c: &ProjectivePoint,
    B_d: &ProjectivePoint,
    transcript: &mut Transcript,
) -> (res: (Scalar, Scalar))
    ensures
        opening(transcript_state(*old(transcript)), C@, D@, z@, B_c@, B_d@) == (Opening {
            alpha: res.0@,
            beta: res.1@,
            state: transcript_state(*final(transcript)),
        }),
{
    let statement = [*C, *D];
    append_points(transcript, "ipa_step1", &statement);
    append_scalar(transcript, "ipa_step1", z);
    let blinders = [*B_c, *B_d];
    append_points(transcript, "ipa_step1", &blinders);
    assert(projective_values(statement@) =~= seq![C@, D@]);
    assert(projective_values(blinders@) =~= seq![B_c@, B_d@]);
    let alpha = get_and_append_challenge(transcript, "ipa_alpha");
    let beta = get_and_append_challenge(transcript, "ipa_beta");
    (alpha, beta)
}

/// Appends what was sent in a round and draws its challenge.
fn draw_round_challenge(
    L_C: &ProjectivePoint,
    L_D: &ProjectivePoint,
    R_C: &ProjectivePoint,
    R_D: &ProjectivePoint,
    transcript: &mut Transcript,
) -> (gamma: Scalar)
    ensures
        ({
            let m = RoundModel { L_C: L_C@, L_D: L_D@, R_C: R_C@, R_D: R_D@ };
            let state = transcript_state(*old(transcript));
            &&& gamma@ == round_challenge(state, m)
            &&& transcript_state(*final(transcript)) == after_round(state, m)
        }),
{
    let message = [*L_C, *L_D, *R_C, *R_D];
    append_points(transcript, "ipa_loop", &message);
    assert(projective_values(message@) =~= seq![L_C@, L_D@, R_C@, R_D@]);
    get_and_append_challenge(transcript, "ipa_gamma")
}

/// Commits to an inner product besides: adds `H`, multiplied by `product`, to `commitment`.
fn commit_product(commitment: &ProjectivePoint, H: &ProjectivePoint, product: &Scalar) -> (res:
    ProjectivePoint)
    ensures
        res@ == residue(commitment@ + H@ * product@),
{
    let res = projective_add(commitment, &projective_mul(H, product));
    proof {
        lemma_residue_add(commitment@, H@ * product@);
    }
    res
}

/// Computes what the prover sends in a round, as `L_C`, `L_D`, `R_C` and `R_D`.
fn commit_round(
    c: &Vec<Scalar>,
    d: &Vec<Scalar>,
    G: &Vec<AffinePoint>,
    G_prime: &Vec<AffinePoint>,
    H: &ProjectivePoint,
) -> (res: (ProjectivePoint, ProjectivePoint, ProjectivePoint, ProjectivePoint))
    requires
        c@.len() >= 2,
        c@.len() == d@.len() == G@.len() == G_prime@.len(),
    ensures
        round_message(vectors(c@, d@, G@, G_prime@), H@) == (RoundModel {
            L_C: res.0@,
            L_D: res.1@,
            R_C: res.2@,
            R_D: res.3@,
        }),
{
    let n = c.len();
    proof {
        lemma_fold_shape(n as nat);
    }
    let first = first_len(n);
    let count = n - first;
    let start = (first - count) / 2;
    let end = start + count;
    let c_L = slice_subrange(c.as_slice(), start, end);
    let c_R = slice_subrange(c.as_slice(), first, n);
    let d_L = slice_subrange(d.as_slice(), start, end);
    let d_R = slice_subrange(d.as_slice(), first, n);
    let G_L = slice_subrange(G.as_slice(), start, end);
    let G_R = slice_subrange(G.as_slice(), first, n);
    let G_prime_L = slice_subrange(G_prime.as_slice(), start, end);
    let G_prime_R = slice_subrange(G_prime.as_slice(), first, n);
    proof {
        let v = vectors(c@, d@, G@, G_prime@);
        assert(scalar_values(c_L@) =~= left(v.c));
        assert(scalar_values(c_R@) =~= right(v.c));
        assert(scalar_values(d_L@) =~= left(v.d));
        assert(scalar_values(d_R@) =~= right(v.d));
        assert(affine_values(G_L@) =~= left(v.G));
        assert(affine_values(G_R@) =~= right(v.G));
        assert(affine_values(G_prime_L@) =~= left(v.G_prime));
        assert(affine_values(G_prime_R@) =~= right(v.G_prime));
    }
    let L_C = commit_product(&msm(G_R, c_L), H, &inner_product(c_L, d_R));
    let L_D = msm(G_prime_L, d_R);
    let R_C = commit_product(&msm(G_L, c_R), H, &inner_product(c_R, d_L));
    let R_D = msm(G_prime_R, d_L);
    (L_C, L_D, R_C, R_D)
}

/// Hides a vector: multiplies it by `alpha` and adds the blinders `r`.
fn blind(v: &mut Vec<Scalar>, r: &[Scalar], alpha: &Scalar)
    requires
        old(v)@.len() == r@.len(),
    ensures
        scalar_values(final(v)@) == blinded(scalar_values(old(v)@), scalar_values(r@), alpha@),
{
    let ghost values = scalar_values(v@);
    let n = v.len();
    let mut i: usize = 0;
    while i < n
        invariant
            i <= n,
            v@.len() == n,
            r@.len() == n,
            values.len() == n,
            forall|k: int|
                0 <= k < n ==> (#[trigger] v@[k])@ == (if k < i {
                    residue(r@[k]@ + alpha@ * values[k])
                } else {
                    values[k]
                }),
        decreases n - i,
    {
        let hidden = scalar_add(&r[i], &scalar_mul(alpha, &v[i]));
        proof {
            lemma_residue_add(r@[i as int]@, alpha@ * values[i as int]);
        }
        v[i] = hidden;
        i += 1;
    }
    assert(scalar_values(v@) =~= blinded(values, scalar_values(r@), alpha@));
}

/// Inverts every scalar; 0 stays 0.
fn invert_all(v: &[Scalar]) -> (res: Vec<Scalar>)
    ensures
        scalar_values(res@) == inverses(scalar_values(v@)),
        inverses_exist(scalar_values(v@)),
{
    let res = scalar_batch_inversion(v);
    proof {
        assert forall|i: int|
            0 <= i < v@.len() && scalar_values(v@)[i] != 0 implies invertible(
            #[trigger] scalar_values(v@)[i],
        ) by {
            assert(v@[i]@ != 0 && is_inverse(v@[i]@, res@[i]@));
            lemma_inverse_unique(v@[i]@, res@[i]@);
        }
        assert forall|i: int| 0 <= i < v@.len() implies (#[trigger] res@[i])@ == inverse(
            v@[i]@,
        ) by {
            if v@[i]@ == 0 {
                lemma_inverse_of_zero();
            } else {
                lemma_inverse_unique(v@[i]@, res@[i]@);
            }
        }
        assert(scalar_values(res@) =~= inverses(scalar_values(v@)));
    }
    res
}

/// Multiplies the challenges of some rounds.
fn multiply_challenges(challenges: &[Scalar], rounds: &[usize]) -> (res: Scalar)
    requires
        forall|i: int| 0 <= i < rounds@.len() ==> #[trigger] rounds@[i] < challenges@.len(),
    ensures
        res@ == challenge_product(scalar_values(challenges@), rounds@),
{
    let ghost gammas = scalar_values(challenges@);
    let ghost product = challenge_product(gammas, rounds@);
    let mut res = Scalar::from_u64(1);
    let mut i: usize = 0;
    proof {
        assert(rounds@.skip(0) =~= rounds@);
        lemma_challenge_product_reduced(gammas, rounds@);
        lemma_residue_of_reduced(product);
    }
    while i < rounds.len()
        invariant
            i <= rounds@.len(),
            forall|k: int| 0 <= k < rounds@.len() ==> #[trigger] rounds@[k] < challenges@.len(),
            gammas == scalar_values(challenges@),
            product == residue(res@ * challenge_product(gammas, rounds@.skip(i as int))),
        decreases rounds@.len() - i,
    {
        let gamma = &challenges[rounds[i]];
        proof {
            let rest = rounds@.skip(i as int);
            let tail = challenge_product(gammas, rest.drop_first());
            assert(rest.drop_first() =~= rounds@.skip(i + 1));
            lemma_residue_mul(res@, gamma@ * tail);
            assert(res@ * (gamma@ * tail) == (res@ * gamma@) * tail) by (nonlinear_arith);
            lemma_residue_mul(res@ * gamma@, tail);
        }
        res = scalar_mul(&res, gamma);
        i += 1;
    }
    proof {
        assert(res@ * 1 == res@);
        lemma_scalar_reduced(res);
        lemma_residue_of_reduced(res@);
    }
    res
}

/// Multiplies every scalar by `factor`.
fn scale_all(factor: &Scalar, v: &[Scalar]) -> (res: Vec<Scalar>)
    ensures
        res@.len() == v@.len(),
        forall|i: int| 0 <= i < v@.len() ==> (#[trigger] res@[i])@ == residue(factor@ * v@[i]@),
{
    let mut res: Vec<Scalar> = Vec::new();
    let mut i: usize = 0;
    while i < v.len()
        invariant
            i <= v@.len(),
            res@.len() == i,
            forall|k: int| 0 <= k < i ==> (#[trigger] res@[k])@ == residue(factor@ * v@[k]@),
        decreases v@.len() - i,
    {
        res.push(scalar_mul(factor, &v[i]));
        i += 1;
    }
    res
}

/// Multiplies the products of corresponding scalars by `factor`, over the length of the shorter
/// slice.
fn scale_products(factor: &Scalar, v: &[Scalar], w: &[Scalar]) -> (res: Vec<Scalar>)
    ensures
        res@.len() == (if v@.len() <= w@.len() {
            v@.len()
        } else {
            w@.len()
        }),
        forall|i: int|
            0 <= i < res@.len() ==> (#[trigger] res@[i])@ == residue(factor@ * (v@[i]@ * w@[i]@)),
{
    let mut res: Vec<Scalar> = Vec::new();
    let mut i: usize = 0;
    while i < v.len() && i < w.len()
        invariant
            i <= v@.len(),
            i <= w@.len(),
            res@.len() == i,
            forall|k: int|
                0 <= k < i ==> (#[trigger] res@[k])@ == residue(factor@ * (v@[k]@ * w@[k]@)),
        decreases v@.len() - i,
    {
        proof {
            lemma_residue_mul(factor@, v@[i as int]@ * w@[i as int]@);
        }
        res.push(scalar_mul(factor, &scalar_mul(&v[i], &w[i])));
        i += 1;
    }
    res
}

/// The point of the first check, without the residues in between.
proof fn lemma_first_point(
    L: int,
    R: int,
    B: int,
    C: int,
    alpha: int,
    beta: int,
    z: int,
    crs_H: int,
    H: int,
    k: int,
)
    requires
        residue(H) == residue(crs_H * beta),
        residue(k) == residue(alpha * alpha * z),
    ensures
        residue(residue(L + residue(residue(B + residue(C * alpha)) + residue(H * k))) + R)
            == residue(L + B + alpha * C + alpha * alpha * z * (beta * crs_H) + R),
{
    let F = alpha * alpha * z * (beta * crs_H);
    lemma_congruent_mul(H, crs_H * beta, k, alpha * alpha * z);
    assert((crs_H * beta) * (alpha * alpha * z) == F) by {
        assert(crs_H * beta == beta * crs_H) by (nonlinear_arith);
        lemma_mul_is_commutative(beta * crs_H, alpha * alpha * z);
    }
    lemma_mul_is_commutative(C, alpha);
    lemma_residue_add(B, alpha * C);
    lemma_residue_add(B + alpha * C, F);
    lemma_residue_add(L, B + alpha * C + F);
    lemma_residue_add(L + (B + alpha * C + F), R);
}

/// The point of the second check, without the residues in between.
proof fn lemma_second_point(L: int, R: int, B: int, D: int, alpha: int)
    ensures
        residue(residue(L + residue(B + residue(D * alpha))) + R) == residue(L + B + alpha * D + R),
{
    lemma_mul_is_commutative(D, alpha);
    lemma_residue_add(B, alpha * D);
    lemma_residue_add(L, B + alpha * D);
    lemma_residue_add(L + (B + alpha * D), R);
}

/// Rounds that were added at the end come before the rounds that are still to come.
proof fn lemma_preceded(sent: Seq<RoundModel>, m: RoundModel, rest: Rounds)
    ensures
        preceded(sent, preceded(seq![m], rest)) == preceded(sent.push(m), rest),
{
    assert(sent + (seq![m] + rest.sent) =~= sent.push(m) + rest.sent);
}

/// The numbers of a proof are reduced.
pub proof fn lemma_proof_reduced(p: InnerProductProof)
    ensures
        reduced_proof(p@),
{
    broadcast use {lemma_projective_reduced, lemma_scalar_reduced};

}

/// What [`InnerProductProof::serialize`] writes, whatever follows it, is what
/// [`InnerProductProof::deserialize`] reads back.
pub proof fn lemma_serialized_proof(p: InnerProductProof, rest: Seq<u8>)
    ensures
        starts_with_proof(proof_encoding(p@) + rest, p@, p@.rounds.len()),
{
    lemma_proof_reduced(p);
    let bytes = proof_encoding(p@);
    assert(bytes =~= (bytes + rest).take(bytes.len() as int));
}

impl Clone for InnerProductProof {
    fn clone(&self) -> (res: Self)
        ensures
            res@ == self@,
    {
        proof {
            use_type_invariant(self);
        }
        let res = InnerProductProof {
            B_c: self.B_c,
            B_d: self.B_d,
            vec_L_C: self.vec_L_C.clone(),
            vec_R_C: self.vec_R_C.clone(),
            vec_L_D: self.vec_L_D.clone(),
            vec_R_D: self.vec_R_D.clone(),
            c_final: self.c_final,
            d_final: self.d_final,
        };
        assert(res@ =~= self@);
        res
    }
}

impl InnerProductProof {
    /// Each round sends one point of each kind.
    #[verifier::type_invariant]
    spec fn well_formed(self) -> bool {
        self.vec_L_C@.len() == self.vec_R_C@.len() == self.vec_L_D@.len() == self.vec_R_D@.len()
    }

    /// Create an inner product proof.
    ///
    /// * `crs_G_vec` - the basis that `C` commits to `vec_c` with
    /// * `crs_G_prime_vec` - the basis that `D` commits to `vec_d` with
    /// * `crs_H` - the CRS element that commits to inner products
    /// * `C` - commitment to `vec_c`
    /// * `D` - commitment to `vec_d`
    /// * `z` - inner product result
    /// * `vec_c` - first inner product vector (*witness*)
    /// * `vec_d` - second inner product vector (*witness*)
    ///
    /// `None` means that the blinders that were drawn could not be completed, or that some
    /// challenge was 0.
    pub fn new(
        crs_G_vec: Vec<AffinePoint>,
        crs_G_prime_vec: Vec<AffinePoint>,
        crs_H: &ProjectivePoint,
        C: ProjectivePoint,
        D: ProjectivePoint,
        z: Scalar,
        vec_c: Vec<Scalar>,
        vec_d: Vec<Scalar>,
        transcript: &mut Transcript,
        rng: &mut StdRng,
    ) -> (res: Option<InnerProductProof>)
        requires
            vec_c@.len() >= 2,
            vec_c@.len() == vec_d@.len() == crs_G_vec@.len() == crs_G_prime_vec@.len(),
            vec_c@[vec_c@.len() - 2]@ != 0,
        ensures
            ({
                let v = vectors(vec_c@, vec_d@, crs_G_vec@, crs_G_prime_vec@);
                let before = transcript_state(*old(transcript));
                let after = transcript_state(*final(transcript));
                let made = match res {
                    Some(p) => Some(p@),
                    None => None,
                };
                let n = vec_c@.len();
                let drawn = after_draws(*old(rng), n);
                let (r, z_head) = (
                    drawn_scalars(*old(rng), n),
                    drawn_scalars(drawn, (n - 2) as nat),
                );
                &&& proven_from_draws(v, crs_H@, C@, D@, z@, r, z_head, before, made, after)
                &&& *final(rng) == after_draws(drawn, (n - 2) as nat)
                &&& proven_with_draws(v, crs_H@, C@, D@, z@, before, made, after)
                &&& res is Some ==> proven(v, crs_H@, C@, D@, z@, before, made, after)
            }),
    {
        let n = vec_c.len();
        let vec_r_c = generate_blinders(rng, n);
        let z_head = generate_blinders(rng, n - 2);  // leave two out
        proof {
            broadcast use lemma_scalar_reduced;
            assert(all_reduced(scalar_values(vec_r_c@)) && all_reduced(scalar_values(z_head@)));
        }
        Self::with_draws(
            crs_G_vec,
            crs_G_prime_vec,
            crs_H,
            C,
            D,
            z,
            vec_c,
            vec_d,
            &vec_r_c,
            &z_head,
            transcript,
        )
    }

    /// Create an inner product proof from what was drawn for its blinders: all of the first vector,
    /// and all but the last two entries of the second one.
    ///
    /// `None` means that the draws could not be completed, or that some challenge was 0.
    pub fn with_draws(
        crs_G_vec: Vec<AffinePoint>,
        crs_G_prime_vec: Vec<AffinePoint>,
        crs_H: &ProjectivePoint,
        C: ProjectivePoint,
        D: ProjectivePoint,
        z: Scalar,
        vec_c: Vec<Scalar>,
        vec_d: Vec<Scalar>,
        vec_r_c: &[Scalar],
        z_head: &[Scalar],
        transcript: &mut Transcript,
    ) -> (res: Option<InnerProductProof>)
        requires
            vec_c@.len() >= 2,
            vec_c@.len() == vec_d@.len() == crs_G_vec@.len() == crs_G_prime_vec@.len(),
            vec_c@[vec_c@.len() - 2]@ != 0,
            vec_r_c@.len() == vec_c@.len(),
            z_head@.len() + 2 == vec_c@.len(),
        ensures
            ({
                let v = vectors(vec_c@, vec_d@, crs_G_vec@, crs_G_prime_vec@);
                let (r, head) = (scalar_values(vec_r_c@), scalar_values(z_head@));
                let before = transcript_state(*old(transcript));
                let after = transcript_state(*final(transcript));
                let made = match res {
                    Some(p) => Some(p@),
                    None => None,
                };
                &&& proven_from_draws(v, crs_H@, C@, D@, z@, r, head, before, made, after)
                &&& res is Some ==> proven(v, crs_H@, C@, D@, z@, before, made, after)
            }),
    {
        let ghost v = vectors(vec_c@, vec_d@, crs_G_vec@, crs_G_prime_vec@);
        let ghost (r, head) = (scalar_values(vec_r_c@), scalar_values(z_head@));
        let ghost before = transcript_state(*transcript);
        let vec_r_d = match solve_ipa_blinders(vec_r_c, z_head, &vec_c, &vec_d) {
            Some(blinders) => blinders,
            None => {
                assert(draw_outcome(r, head, v.c, v.d, None));
                return None;
            },
        };
        let ghost r_d = scalar_values(vec_r_d@);
        assert(draw_outcome(r, head, v.c, v.d, Some((r, r_d))));
        let res = Self::with_blinders(
            crs_G_vec,
            crs_G_prime_vec,
            crs_H,
            C,
            D,
            z,
            vec_c,
            vec_d,
            vec_r_c,
            &vec_r_d,
            transcript,
        );
        assert(prove(v, crs_H@, C@, D@, z@, r, r_d, before).1 == transcript_state(*transcript));
        res
    }

    /// Create an inner product proof from given blinders.
    ///
    /// `None` means that some challenge was 0, which has no inverse.
    pub fn with_blinders(
        crs_G_vec: Vec<AffinePoint>,
        crs_G_prime_vec: Vec<AffinePoint>,
        crs_H: &ProjectivePoint,
        C: ProjectivePoint,
        D: ProjectivePoint,
        z: Scalar,
        vec_c: Vec<Scalar>,
        vec_d: Vec<Scalar>,
        vec_r_c: &[Scalar],
        vec_r_d: &[Scalar],
        transcript: &mut Transcript,
    ) -> (res: Option<InnerProductProof>)
        requires
            vec_c@.len() >= 1,
            vec_c@.len() == vec_d@.len() == crs_G_vec@.len() == crs_G_prime_vec@.len(),
            vec_r_c@.len() == vec_c@.len(),
            vec_r_d@.len() == vec_c@.len(),
        ensures
            ({
                let (proof_model, state) = prove(
                    vectors(vec_c@, vec_d@, crs_G_vec@, crs_G_prime_vec@),
                    crs_H@,
                    C@,
                    D@,
                    z@,
                    scalar_values(vec_r_c@),
                    scalar_values(vec_r_d@),
                    transcript_state(*old(transcript)),
                );
                &&& transcript_state(*final(transcript)) == state
                &&& match res {
                    Some(p) => proof_model == Some(p@),
                    None => proof_model is None,
                }
            }),
            ({
                let challenges = prover_challenges(
                    vectors(vec_c@, vec_d@, crs_G_vec@, crs_G_prime_vec@),
                    crs_H@,
                    C@,
                    D@,
                    z@,
                    scalar_values(vec_r_c@),
                    scalar_values(vec_r_d@),
                    transcript_state(*old(transcript)),
                );
                &&& inverses_exist(challenges)
                &&& res is None <==> challenges.contains(0)
            }),
    {
        let ghost model = prove(
            vectors(vec_c@, vec_d@, crs_G_vec@, crs_G_prime_vec@),
            crs_H@,
            C@,
            D@,
            z@,
            scalar_values(vec_r_c@),
            scalar_values(vec_r_d@),
            transcript_state(*transcript),
        );
        let ghost challenges = prover_challenges(
            vectors(vec_c@, vec_d@, crs_G_vec@, crs_G_prime_vec@),
            crs_H@,
            C@,
            D@,
            z@,
            scalar_values(vec_r_c@),
            scalar_values(vec_r_d@),
            transcript_state(*transcript),
        );
        let mut c = vec_c;
        let mut d = vec_d;
        let mut G = crs_G_vec;
        let mut G_prime = crs_G_prime_vec;
        let mut vec_L_C: Vec<ProjectivePoint> = Vec::new();
        let mut vec_R_C: Vec<ProjectivePoint> = Vec::new();
        let mut vec_L_D: Vec<ProjectivePoint> = Vec::new();
        let mut vec_R_D: Vec<ProjectivePoint> = Vec::new();
        // Step 1
        let B_c = msm(&G, vec_r_c);
        let B_d = msm(&G_prime, vec_r_d);
        let (alpha, beta) = open_statement(&C, &D, &z, &B_c, &B_d, transcript);
        blind(&mut c, vec_r_c, &alpha);
        blind(&mut d, vec_r_d, &alpha);
        let H = projective_mul(crs_H, &beta);
        // Step 2
        let ghost opened = transcript_state(*transcript);
        let ghost start = prove_rounds(vectors(c@, d@, G@, G_prime@), H@, opened);
        let ghost mut sent: Seq<RoundModel> = seq![];
        assert(preceded(sent, start) =~= start);
        while c.len() > 1
            invariant
                model == prove(
                    vectors(vec_c@, vec_d@, crs_G_vec@, crs_G_prime_vec@),
                    crs_H@,
                    C@,
                    D@,
                    z@,
                    scalar_values(vec_r_c@),
                    scalar_values(vec_r_d@),
                    transcript_state(*old(transcript)),
                ),
                challenges == prover_challenges(
                    vectors(vec_c@, vec_d@, crs_G_vec@, crs_G_prime_vec@),
                    crs_H@,
                    C@,
                    D@,
                    z@,
                    scalar_values(vec_r_c@),
                    scalar_values(vec_r_d@),
                    transcript_state(*old(transcript)),
                ),
                challenges == round_challenges(opened, start.sent),
                transcript_state(*transcript) == after_rounds(opened, sent),
                forall|i: int|
                    0 <= i < round_challenges(opened, sent).len() ==> #[trigger] round_challenges(
                        opened,
                        sent,
                    )[i] != 0 && invertible(round_challenges(opened, sent)[i]),
                model.1 == start.state,
                start.finals is None ==> model.0 is None,
                c@.len() >= 1,
                c@.len() == d@.len() == G@.len() == G_prime@.len(),
                vec_L_C@.len() == vec_R_C@.len() == vec_L_D@.len() == vec_R_D@.len(),
                sent == rounds_of(vec_L_C@, vec_R_C@, vec_L_D@, vec_R_D@),
                start == preceded(
                    sent,
                    prove_rounds(vectors(c@, d@, G@, G_prime@), H@, transcript_state(*transcript)),
                ),
            decreases c@.len(),
        {
            let ghost v = vectors(c@, d@, G@, G_prime@);
            let ghost state = transcript_state(*transcript);
            let (L_C, L_D, R_C, R_D) = commit_round(&c, &d, &G, &G_prime, &H);
            vec_L_C.push(L_C);
            vec_L_D.push(L_D);
            vec_R_C.push(R_C);
            vec_R_D.push(R_D);
            let gamma = draw_round_challenge(&L_C, &L_D, &R_C, &R_D, transcript);
            let ghost m = round_message(v, H@);
            proof {
                assert(rounds_of(vec_L_C@, vec_R_C@, vec_L_D@, vec_R_D@) =~= sent.push(m));
                lemma_round_challenges_push(opened, sent, m);
            }
            let gamma_inv = match scalar_inverse(&gamma) {
                Some(inv) => inv,
                None => {
                    proof {
                        lemma_inverse_of_zero();
                        lemma_residue_of_reduced(0);
                        assert(!invertible(0));
                        assert(start.sent =~= sent.push(m));
                        assert(challenges.last() == 0);
                    }
                    return None;
                },
            };
            proof {
                lemma_inverse_unique(gamma@, gamma_inv@);
                assert(invertible(gamma@));
                lemma_fold_shape(c@.len());
                lemma_preceded(sent, m, prove_rounds(folded(v, gamma@), H@, after_round(state, m)));
                sent = sent.push(m);
            }
            fold_scalars(&mut c, &gamma_inv);
            fold_scalars(&mut d, &gamma);
            fold_points(&mut G, &gamma);
            fold_points(&mut G_prime, &gamma_inv);
            proof {
                assert(scalar_values(c@).len() == c@.len());
                assert(scalar_values(d@).len() == d@.len());
                assert(affine_values(G@).len() == G@.len());
                assert(affine_values(G_prime@).len() == G_prime@.len());
            }
        }
        assert(sent + Seq::<RoundModel>::empty() =~= sent);
        Some(
            InnerProductProof {
                B_c,
                B_d,
                vec_L_C,
                vec_R_C,
                vec_L_D,
                vec_R_D,
                c_final: c[0],
                d_final: d[0],
            },
        )
    }

    /// The number of rounds of the proof.
    pub fn num_rounds(&self) -> (res: usize)
        ensures
            res == self@.rounds.len(),
    {
        self.vec_L_C.len()
    }

    /// Generate verification scalars: the challenges of the rounds, their inverses, the factors by
    /// which the entries of a basis of `n` points are multiplied when it is folded, and the
    /// inverses of these.
    pub fn verification_scalars(&self, n: usize, transcript: &mut Transcript) -> (res: Result<
        (Vec<Scalar>, Vec<Scalar>, Vec<Scalar>, Vec<Scalar>),
        ProofError,
    >)
        requires
            self@.rounds.len() >= 32 || n == 0 || self@.rounds.len() <= ceil_log2(n as nat),
        ensures
            ({
                let before = transcript_state(*old(transcript));
                let after = transcript_state(*final(transcript));
                match res {
                    Ok((challenges, challenges_inv, vec_s, vec_inv_s)) => {
                        let gammas = round_challenges(before, self@.rounds);
                        &&& self@.rounds.len() < 32
                        &&& scalar_values(challenges@) == gammas
                        &&& scalar_values(challenges_inv@) == inverses(gammas)
                        &&& scalar_values(vec_s@) == folding_scalars(n as nat, gammas)
                        &&& scalar_values(vec_inv_s@) == inverses(folding_scalars(n as nat, gammas))
                        &&& inverses_exist(gammas)
                        &&& inverses_exist(folding_scalars(n as nat, gammas))
                        &&& after == after_rounds(before, self@.rounds)
                    },
                    Err(e) => {
                        &&& self@.rounds.len() >= 32
                        &&& e == ProofError::VerificationError
                        &&& after == before
                    },
                }
            }),
    {
        proof {
            use_type_invariant(self);
        }
        let lg_n = self.vec_L_C.len();
        if lg_n >= 32 {
            return Err(ProofError::VerificationError);
        }
        let bitstring = get_verification_scalars_bitstring(n, lg_n);
        // 1. Recompute the challenges of the rounds
        let ghost rounds = self@.rounds;
        let ghost before = transcript_state(*transcript);
        let ghost gammas = round_challenges(before, rounds);
        let mut challenges: Vec<Scalar> = Vec::new();
        let mut i: usize = 0;
        assert(rounds.skip(0) =~= rounds);
        assert(scalar_values(challenges@) + gammas =~= gammas);
        while i < lg_n
            invariant
                i <= lg_n,
                challenges@.len() == i,
                lg_n == rounds.len(),
                rounds == rounds_of(self.vec_L_C@, self.vec_R_C@, self.vec_L_D@, self.vec_R_D@),
                self.vec_L_C@.len() == self.vec_R_C@.len() == self.vec_L_D@.len()
                    == self.vec_R_D@.len(),
                gammas == scalar_values(challenges@) + round_challenges(
                    transcript_state(*transcript),
                    rounds.skip(i as int),
                ),
                after_rounds(before, rounds) == after_rounds(
                    transcript_state(*transcript),
                    rounds.skip(i as int),
                ),
            decreases lg_n - i,
        {
            let ghost state = transcript_state(*transcript);
            let ghost so_far = challenges@;
            let gamma = draw_round_challenge(
                &self.vec_L_C[i],
                &self.vec_L_D[i],
                &self.vec_R_C[i],
                &self.vec_R_D[i],
                transcript,
            );
            challenges.push(gamma);
            proof {
                let rest = rounds.skip(i as int);
                assert(rest.drop_first() =~= rounds.skip(i + 1));
                assert(scalar_values(so_far) + (seq![gamma@] + round_challenges(
                    after_round(state, rest[0]),
                    rest.drop_first(),
                )) =~= scalar_values(challenges@) + round_challenges(
                    after_round(state, rest[0]),
                    rest.drop_first(),
                ));
            }
            i += 1;
        }
        proof {
            assert(rounds.skip(i as int) =~= Seq::<RoundModel>::empty());
            assert(gammas =~= scalar_values(challenges@));
        }
        // 2. Compute the inverses of the challenges
        let challenges_inv = invert_all(&challenges);
        // 3. Compute s values by iterating over the bitstring
        let mut vec_s: Vec<Scalar> = Vec::new();
        let mut i: usize = 0;
        while i < n
            invariant
                i <= n,
                lg_n == challenges@.len(),
                bitstring@.len() == n,
                gammas == scalar_values(challenges@),
                forall|k: int|
                    0 <= k < n ==> (#[trigger] bitstring@[k])@ == folded_rounds(
                        n as nat,
                        k,
                        0,
                        lg_n as nat,
                    ),
                vec_s@.len() == i,
                forall|k: int|
                    0 <= k < i ==> (#[trigger] vec_s@[k])@ == folding_scalars(n as nat, gammas)[k],
            decreases n - i,
        {
            proof {
                lemma_folded_rounds_in_order(n as nat, i as int, 0, lg_n as nat);
            }
            vec_s.push(multiply_challenges(&challenges, &bitstring[i]));
            i += 1;
        }
        assert(scalar_values(vec_s@) =~= folding_scalars(n as nat, gammas));
        // 4. Also compute the inverses of the s values
        let vec_inv_s = invert_all(&vec_s);
        Ok((challenges, challenges_inv, vec_s, vec_inv_s))
    }

    /// Verify an inner product proof: replays the transcript and accumulates the two checks that
    /// the proof stands or falls with.
    ///
    /// * `crs_G_vec` - the basis that `C` commits with
    /// * `crs_H` - the CRS element that commits to inner products
    /// * `C` - commitment to the first witness vector
    /// * `D` - commitment to the second witness vector
    /// * `z` - inner product result
    /// * `vec_u` - the factors that make the basis of `D` out of `crs_G_vec`
    pub fn verify(
        &self,
        crs_G_vec: &Vec<AffinePoint>,
        crs_H: &ProjectivePoint,
        C: ProjectivePoint,
        D: ProjectivePoint,
        z: Scalar,
        vec_u: Vec<Scalar>,
        transcript: &mut Transcript,
        msm_accumulator: &mut MsmAccumulator,
        rng: &mut StdRng,
    ) -> (res: Result<(), ProofError>)
        requires
            self@.rounds.len() >= 32 || crs_G_vec@.len() == 0 || self@.rounds.len() <= ceil_log2(
                crs_G_vec@.len(),
            ),
        ensures
            ({
                let (checks, state) = verification(
                    self@,
                    affine_values(crs_G_vec@),
                    crs_H@,
                    C@,
                    D@,
                    z@,
                    scalar_values(vec_u@),
                    transcript_state(*old(transcript)),
                );
                &&& transcript_state(*final(transcript)) == state
                &&& match res {
                    Ok(()) => {
                        &&& checks is Some
                        &&& self@.rounds.len() < 32
                        &&& final(msm_accumulator)@ == accumulated(
                            accumulated(
                                old(msm_accumulator)@,
                                checks->Some_0.0,
                                draw(*old(rng)).0,
                            ),
                            checks->Some_0.1,
                            draw(draw(*old(rng)).1).0,
                        )
                        &&& *final(rng) == draw(draw(*old(rng)).1).1
                        &&& both_accumulated(
                            old(msm_accumulator)@,
                            checks->Some_0,
                            final(msm_accumulator)@,
                        )
                        &&& inverses_exist(
                            verifier_challenges(
                                self@,
                                C@,
                                D@,
                                z@,
                                transcript_state(*old(transcript)),
                            ),
                        )
                    },
                    Err(e) => {
                        &&& checks is None
                        &&& self@.rounds.len() >= 32
                        &&& e == ProofError::VerificationError
                        &&& final(msm_accumulator)@ == old(msm_accumulator)@
                        &&& *final(rng) == *old(rng)
                    },
                }
            }),
    {
        match self.verification_checks(crs_G_vec, crs_H, C, D, z, vec_u, transcript) {
            Ok((first, second)) => {
                let first_weight = scalar_random(rng);
                let second_weight = scalar_random(rng);
                msm_accumulator.accumulate_both(&first, &second, &first_weight, &second_weight);
                Ok(())
            },
            Err(e) => Err(e),
        }
    }

    /// The checks that an inner product proof stands or falls with.
    pub fn verification_checks(
        &self,
        crs_G_vec: &Vec<AffinePoint>,
        crs_H: &ProjectivePoint,
        C: ProjectivePoint,
        D: ProjectivePoint,
        z: Scalar,
        vec_u: Vec<Scalar>,
        transcript: &mut Transcript,
    ) -> (res: Result<(MsmCheck, MsmCheck), ProofError>)
        requires
            self@.rounds.len() >= 32 || crs_G_vec@.len() == 0 || self@.rounds.len() <= ceil_log2(
                crs_G_vec@.len(),
            ),
        ensures
            ({
                let (checks, state) = verification(
                    self@,
                    affine_values(crs_G_vec@),
                    crs_H@,
                    C@,
                    D@,
                    z@,
                    scalar_values(vec_u@),
                    transcript_state(*old(transcript)),
                );
                &&& transcript_state(*final(transcript)) == state
                &&& match res {
                    Ok((first, second)) => checks == Some((first@, second@)) && inverses_exist(
                        verifier_challenges(
                            self@,
                            C@,
                            D@,
                            z@,
                            transcript_state(*old(transcript)),
                        ),
                    ),
                    Err(e) => checks is None && e == ProofError::VerificationError,
                }
            }),
    {
        proof {
            use_type_invariant(self);
        }
        let n = crs_G_vec.len();
        // Step 1
        let (alpha, beta) = open_statement(&C, &D, &z, &self.B_c, &self.B_d, transcript);
        // Step 2
        let (vec_gamma, vec_gamma_inv, vec_s, vec_inv_s) = match self.verification_scalars(
            n,
            transcript,
        ) {
            Ok(scalars) => scalars,
            Err(e) => return Err(e),
        };
        let ghost gammas = scalar_values(vec_gamma@);
        let ghost G = affine_values(crs_G_vec@);
        proof {
            assert(projective_values(self.vec_L_C@) =~= sent_L_C(self@.rounds));
            assert(projective_values(self.vec_R_C@) =~= sent_R_C(self@.rounds));
            assert(projective_values(self.vec_L_D@) =~= sent_L_D(self@.rounds));
            assert(projective_values(self.vec_R_D@) =~= sent_R_D(self@.rounds));
            assert(vec_gamma@.len() == scalar_values(vec_gamma@).len());
            assert(vec_gamma_inv@.len() == scalar_values(vec_gamma_inv@).len());
            lemma_round_challenges_len(
                opening(
                    transcript_state(*old(transcript)),
                    C@,
                    D@,
                    z@,
                    self.B_c@,
                    self.B_d@,
                ).state,
                self@.rounds,
            );
        }
        let mut vec_rhs_scalars = scale_all(&self.c_final, &vec_s);
        let cd_beta = scalar_mul(&scalar_mul(&self.c_final, &self.d_final), &beta);
        vec_rhs_scalars.push(cd_beta);
        let mut vec_G_H = crs_G_vec.clone();
        vec_G_H.push(crs_H.to_affine());
        // Step 3
        let H = projective_mul(crs_H, &beta);
        let alpha_alpha_z = scalar_mul(&scalar_mul(&alpha, &alpha), &z);
        let C_a = projective_add(
            &projective_add(&self.B_c, &projective_mul(&C, &alpha)),
            &projective_mul(&H, &alpha_alpha_z),
        );
        let L_C = msm_from_projective(&self.vec_L_C, &vec_gamma);
        let R_C = msm_from_projective(&self.vec_R_C, &vec_gamma_inv);
        let first = MsmCheck {
            point: projective_add(&projective_add(&L_C, &C_a), &R_C),
            scalars: vec_rhs_scalars,
            bases: vec_G_H,
        };
        let vec_d_div_s = scale_products(&self.d_final, &vec_inv_s, &vec_u);
        let D_a = projective_add(&self.B_d, &projective_mul(&D, &alpha));
        let L_D = msm_from_projective(&self.vec_L_D, &vec_gamma);
        let R_D = msm_from_projective(&self.vec_R_D, &vec_gamma_inv);
        let second = MsmCheck {
            point: projective_add(&projective_add(&L_D, &D_a), &R_D),
            scalars: vec_d_div_s,
            bases: crs_G_vec.clone(),
        };
        proof {
            let p = self@;
            let first_model = first_check(p, G, crs_H@, C@, z@, alpha@, beta@, gammas);
            let second_model = second_check(p, G, D@, scalar_values(vec_u@), alpha@, gammas);
            lemma_residue_mul(p.c_final * p.d_final, beta@);
            assert(first@.scalars =~= first_model.scalars);
            assert(first@.bases =~= first_model.bases);
            assert(scalar_values(vec_inv_s@).len() == vec_inv_s@.len());
            assert forall|i: int| 0 <= i < vec_inv_s@.len() implies (#[trigger] vec_inv_s@[i])@
                == inverse(folding_scalars(n as nat, gammas)[i]) by {
                assert(scalar_values(vec_inv_s@)[i] == vec_inv_s@[i]@);
            }
            assert(second@.scalars =~= second_model.scalars);
            assert(second@.bases =~= second_model.bases);
            lemma_residue_twice(crs_H@ * beta@);
            lemma_residue_twice(alpha@ * alpha@);
            lemma_residue_mul(alpha@ * alpha@, z@);
            lemma_residue_twice(alpha@ * alpha@ * z@);
            lemma_first_point(
                L_C@,
                R_C@,
                self.B_c@,
                C@,
                alpha@,
                beta@,
                z@,
                crs_H@,
                H@,
                alpha_alpha_z@,
            );
            lemma_second_point(L_D@, R_D@, self.B_d@, D@, alpha@);
        }
        Ok((first, second))
    }

    /// Writes the proof to the end of `w`.
    pub fn serialize(&self, w: &mut Vec<u8>) -> (res: Result<(), SerializationError>)
        ensures
            res is Ok,
            final(w)@ == old(w)@ + proof_encoding(self@),
            final(w)@ == old(w)@ + point_encoding(self@.B_c) + point_encoding(self@.B_d)
                + points_encoding(sent_L_C(self@.rounds)) + points_encoding(sent_R_C(self@.rounds))
                + points_encoding(sent_L_D(self@.rounds)) + points_encoding(sent_R_D(self@.rounds))
                + le_bytes(self@.c_final, 32) + le_bytes(self@.d_final, 32),
            final(w)@.len() == old(w)@.len() + 160 + 192 * self@.rounds.len(),
    {
        proof {
            use_type_invariant(self);
            broadcast use lemma_scalar_reduced;
            lemma_le_bytes_value(self.c_final@, 32);
            lemma_le_bytes_value(self.d_final@, 32);
            assert(projective_values(self.vec_L_C@) =~= sent_L_C(self@.rounds));
            assert(projective_values(self.vec_R_C@) =~= sent_R_C(self@.rounds));
            assert(projective_values(self.vec_L_D@) =~= sent_L_D(self@.rounds));
            assert(projective_values(self.vec_R_D@) =~= sent_R_D(self@.rounds));
        }
        let ghost before = w@;
        w.append(&mut self.B_c.to_bytes());
        w.append(&mut self.B_d.to_bytes());
        serialize_g1projective_vec(&self.vec_L_C, w)?;
        serialize_g1projective_vec(&self.vec_R_C, w)?;
        serialize_g1projective_vec(&self.vec_L_D, w)?;
        serialize_g1projective_vec(&self.vec_R_D, w)?;
        w.append(&mut self.c_final.to_bytes());
        w.append(&mut self.d_final.to_bytes());
        assert(w@ =~= before + proof_encoding(self@));
        Ok(())
    }

    /// Reads a proof of `log2_n` rounds from the front of `bytes`. What [`Self::serialize`] wrote
    /// is read back.
    pub fn deserialize(bytes: &[u8], log2_n: usize) -> (res: Result<Self, SerializationError>)
        ensures
            match res {
                Ok(p) => proof_decoding(bytes@, log2_n as nat) == Ok::<
                    ProofModel,
                    SerializationError,
                >(p@),
                Err(e) => proof_decoding(bytes@, log2_n as nat) == Err::<
                    ProofModel,
                    SerializationError,
                >(e),
            },
            res is Ok ==> res->Ok_0@.rounds.len() == log2_n,
            forall|p: ProofModel| #[trigger]
                starts_with_proof(bytes@, p, log2_n as nat) ==> res is Ok && res->Ok_0@ == p,
    {
        let res = Self::read(bytes, log2_n);
        proof {
            assert forall|p: ProofModel| #[trigger]
                starts_with_proof(bytes@, p, log2_n as nat) implies res is Ok && res->Ok_0@
                == p by {
                lemma_proof_read_back(bytes@, p, log2_n as nat);
            }
        }
        res
    }

    /// Reads the parts of a proof one after the other.
    fn read(bytes: &[u8], log2_n: usize) -> (res: Result<Self, SerializationError>)
        ensures
            match res {
                Ok(p) => proof_decoding(bytes@, log2_n as nat) == Ok::<
                    ProofModel,
                    SerializationError,
                >(p@),
                Err(e) => proof_decoding(bytes@, log2_n as nat) == Err::<
                    ProofModel,
                    SerializationError,
                >(e),
            },
            res is Ok ==> res->Ok_0@.rounds.len() == log2_n,
            reads_back_parts(bytes@, log2_n as nat),
    {
        let len = bytes.len();
        let ghost size = 48 * log2_n as int;
        let B_c = match ProjectivePoint::from_bytes(bytes) {
            Ok(point) => point,
            Err(e) => return Err(e),
        };
        let rest = slice_subrange(bytes, 48, len);
        assert(rest@ =~= bytes@.skip(48));
        let B_d = match ProjectivePoint::from_bytes(rest) {
            Ok(point) => point,
            Err(e) => return Err(e),
        };
        let rest = slice_subrange(bytes, 96, len);
        assert(rest@ =~= bytes@.skip(96));
        let vec_L_C = match deserialize_g1projective_vec(rest, log2_n) {
            Ok(points) => points,
            Err(e) => return Err(e),
        };
        let rest = slice_subrange(bytes, 96 + 48 * log2_n, len);
        assert(rest@ =~= bytes@.skip(96 + size));
        let vec_R_C = match deserialize_g1projective_vec(rest, log2_n) {
            Ok(points) => points,
            Err(e) => return Err(e),
        };
        let rest = slice_subrange(bytes, 96 + 96 * log2_n, len);
        assert(rest@ =~= bytes@.skip(96 + 2 * size));
        let vec_L_D = match deserialize_g1projective_vec(rest, log2_n) {
            Ok(points) => points,
            Err(e) => return Err(e),
        };
        let rest = slice_subrange(bytes, 96 + 144 * log2_n, len);
        assert(rest@ =~= bytes@.skip(96 + 3 * size));
        let vec_R_D = match deserialize_g1projective_vec(rest, log2_n) {
            Ok(points) => points,
            Err(e) => return Err(e),
        };
        let rest = slice_subrange(bytes, 96 + 192 * log2_n, len);
        assert(rest@ =~= bytes@.skip(96 + 4 * size));
        let c_final = match Scalar::from_bytes(rest) {
            Ok(scalar) => scalar,
            Err(e) => return Err(e),
        };
        let rest = slice_subrange(bytes, 128 + 192 * log2_n, len);
        assert(rest@ =~= bytes@.skip(128 + 4 * size));
        let d_final = match Scalar::from_bytes(rest) {
            Ok(scalar) => scalar,
            Err(e) => return Err(e),
        };
        let res = InnerProductProof {
            B_c,
            B_d,
            vec_L_C,
            vec_R_C,
            vec_L_D,
            vec_R_D,
            c_final,
            d_final,
        };
        assert(res@.rounds =~= rounds_sending(
            projective_values(vec_L_C@),
            projective_values(vec_R_C@),
            projective_values(vec_L_D@),
            projective_values(vec_R_D@),
        ));
        Ok(res)
    }
}

} // verus!
