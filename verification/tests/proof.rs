#![allow(non_snake_case)]
use ark_bls12_381::{Fr, G1Affine, G1Projective};
use ark_ec::AffineRepr;
use ark_ff::{Field, PrimeField};
use ark_serialize::{CanonicalDeserialize, CanonicalSerialize};
use ark_std::rand::{rngs::StdRng, SeedableRng};
use ark_std::{UniformRand, Zero};
use curdleproofs::blinders::{generate_ipa_blinders, solve_ipa_blinders};
use curdleproofs::errors::{ProofError, SerializationError};
use curdleproofs::inner_product_argument::InnerProductProof;
use curdleproofs::msm_accumulator::{MsmAccumulator, MsmCheck};
use curdleproofs::point::{AffinePoint, ProjectivePoint};
use curdleproofs::scalar::Scalar;
use curdleproofs::transcript::{
    append_point, append_points, append_scalar, get_and_append_challenge,
};
use curdleproofs::util::{generate_blinders, inner_product, msm};
use merlin::Transcript;

fn fr_bytes(x: Fr) -> Vec<u8> {
    let mut bytes = Vec::new();
    x.serialize_compressed(&mut bytes).unwrap();
    bytes
}

fn g1_bytes(p: G1Projective) -> Vec<u8> {
    let mut bytes = Vec::new();
    p.serialize_compressed(&mut bytes).unwrap();
    bytes
}

fn scalar(x: Fr) -> Scalar {
    Scalar::from_bytes(&fr_bytes(x)).unwrap()
}

fn fr(s: &Scalar) -> Fr {
    Fr::deserialize_compressed(&s.to_bytes()[..]).unwrap()
}

fn point(p: G1Projective) -> ProjectivePoint {
    ProjectivePoint::from_bytes(&g1_bytes(p)).unwrap()
}

fn scalars(v: &[u64]) -> Vec<Scalar> {
    v.iter().map(|x| Scalar::from_u64(*x)).collect()
}

/// The bytes that a transcript gives next.
fn next_bytes(transcript: &mut Transcript) -> Vec<u8> {
    let mut bytes = vec![0u8; 32];
    transcript.challenge_bytes(b"next", &mut bytes);
    bytes
}

/// A true statement about vectors of `n` entries.
struct Statement {
    G: Vec<AffinePoint>,
    G_prime: Vec<AffinePoint>,
    u: Vec<Scalar>,
    H: ProjectivePoint,
    c: Vec<Scalar>,
    d: Vec<Scalar>,
    C: ProjectivePoint,
    D: ProjectivePoint,
    z: Scalar,
}

fn statement(n: usize, rng: &mut StdRng) -> Statement {
    let G: Vec<AffinePoint> = (0..n).map(|_| point(G1Projective::rand(rng)).to_affine()).collect();
    let u = generate_blinders(rng, n);
    let G_prime: Vec<AffinePoint> =
        G.iter().zip(&u).map(|(G_i, u_i)| G_i.times(u_i).to_affine()).collect();
    let H = point(G1Projective::rand(rng));
    let c = generate_blinders(rng, n);
    let d = generate_blinders(rng, n);
    let C = msm(&G, &c);
    let D = msm(&G_prime, &d);
    let z = inner_product(&c, &d);
    Statement { G, G_prime, u, H, c, d, C, D, z }
}

fn prove(s: &Statement, r_c: &[Scalar], r_d: &[Scalar], transcript: &mut Transcript) -> InnerProductProof {
    InnerProductProof::with_blinders(
        s.G.clone(),
        s.G_prime.clone(),
        &s.H,
        s.C,
        s.D,
        s.z,
        s.c.clone(),
        s.d.clone(),
        r_c,
        r_d,
        transcript,
    )
    .unwrap()
}

fn accepted(proof: &InnerProductProof, s: &Statement, rng: &mut StdRng) -> bool {
    let mut accumulator = MsmAccumulator::new();
    proof
        .verify(
            &s.G,
            &s.H,
            s.C,
            s.D,
            s.z,
            s.u.clone(),
            &mut Transcript::new(b"proof"),
            &mut accumulator,
            rng,
        )
        .unwrap();
    accumulator.verify().is_ok()
}

fn encoding(proof: &InnerProductProof) -> Vec<u8> {
    let mut bytes = Vec::new();
    proof.serialize(&mut bytes).unwrap();
    bytes
}

#[test]
fn transcript_of_points_and_scalars() {
    let mut ours = Transcript::new(b"t");
    let mut plain = Transcript::new(b"t");
    let p = G1Affine::generator() * Fr::from(5u64);
    let q = G1Affine::generator() * Fr::from(6u64);
    append_point(&mut ours, "first", &point(p));
    plain.append_message(b"first", &g1_bytes(p));
    append_points(&mut ours, "second", &[point(q), point(p)]);
    plain.append_message(b"second", &g1_bytes(q));
    plain.append_message(b"second", &g1_bytes(p));
    append_scalar(&mut ours, "third", &Scalar::from_u64(77));
    plain.append_message(b"third", &fr_bytes(Fr::from(77u64)));
    let challenge = get_and_append_challenge(&mut ours, "fourth");
    let mut bytes = [0u8; 64];
    plain.challenge_bytes(b"fourth", &mut bytes);
    let expected = Fr::from_le_bytes_mod_order(&bytes);
    plain.append_message(b"fourth", &fr_bytes(expected));
    assert_eq!(challenge, scalar(expected));
    assert_eq!(next_bytes(&mut ours), next_bytes(&mut plain));
}

#[test]
fn blinders_exact_solution() {
    // <r, d> + <z, c> = 0 and <r, z> = 0 with r = (1, 2), c = (3, 4), d = (5, 7): the equations
    // 19 + 3 x + 4 y = 0 and x + 2 y = 0 have the solution x = -19, y = 19 / 2
    let z = solve_ipa_blinders(&scalars(&[1, 2]), &[], &scalars(&[3, 4]), &scalars(&[5, 7])).unwrap();
    let half = Fr::from(2u64).inverse().unwrap();
    assert_eq!(z, vec![scalar(-Fr::from(19u64)), scalar(Fr::from(19u64) * half)]);
}

#[test]
fn blinders_keep_what_is_given() {
    let z = solve_ipa_blinders(
        &scalars(&[1, 2, 3, 9]),
        &scalars(&[8, 6]),
        &scalars(&[2, 7, 1, 8]),
        &scalars(&[3, 1, 4, 1]),
    )
    .unwrap();
    assert_eq!(z[..2], scalars(&[8, 6])[..]);
    let zero = Scalar::from_u64(0);
    assert_eq!(inner_product(&scalars(&[1, 2, 3, 9]), &z), zero);
    let mut all = scalars(&[1, 2, 3, 9]);
    all.extend(&z);
    let mut others = scalars(&[3, 1, 4, 1]);
    others.extend(scalars(&[2, 7, 1, 8]));
    assert_eq!(inner_product(&all, &others), zero);
}

#[test]
fn blinders_of_a_singular_system() {
    assert!(solve_ipa_blinders(&scalars(&[6, 8]), &[], &scalars(&[3, 4]), &scalars(&[5, 7])).is_none());
    assert!(solve_ipa_blinders(&scalars(&[0, 0]), &[], &scalars(&[3, 4]), &scalars(&[5, 7])).is_none());
}

#[test]
fn generated_blinders_satisfy_the_constraints() {
    let mut rng = StdRng::seed_from_u64(5);
    for n in 2..10 {
        let c = generate_blinders(&mut rng, n);
        let d = generate_blinders(&mut rng, n);
        let (r, z) = generate_ipa_blinders(&mut rng, &c, &d).unwrap();
        assert_eq!(fr(&inner_product(&r, &d)) + fr(&inner_product(&z, &c)), Fr::zero());
        assert_eq!(fr(&inner_product(&r, &z)), Fr::zero());
    }
}

#[test]
fn generated_blinders_begin_with_the_draws() {
    let mut rng = StdRng::seed_from_u64(31);
    let c = generate_blinders(&mut rng, 6);
    let d = generate_blinders(&mut rng, 6);
    let (r, z) = generate_ipa_blinders(&mut StdRng::seed_from_u64(32), &c, &d).unwrap();
    let mut draws = StdRng::seed_from_u64(32);
    let expected_r = generate_blinders(&mut draws, 6);
    let z_head = generate_blinders(&mut draws, 4);
    assert_eq!(r, expected_r);
    assert_eq!(z[..4], z_head[..]);
    assert_eq!(z, solve_ipa_blinders(&r, &z_head, &c, &d).unwrap());
}

#[test]
fn proof_from_draws_that_are_singular() {
    let mut rng = StdRng::seed_from_u64(35);
    let s = statement(4, &mut rng);
    let mut transcript = Transcript::new(b"proof");
    let from_draws = |r: &[Scalar], z_head: &[Scalar], transcript: &mut Transcript| {
        InnerProductProof::with_draws(
            s.G.clone(),
            s.G_prime.clone(),
            &s.H,
            s.C,
            s.D,
            s.z,
            s.c.clone(),
            s.d.clone(),
            r,
            z_head,
            transcript,
        )
    };
    assert!(from_draws(&scalars(&[1, 2, 0, 0]), &scalars(&[3, 4]), &mut transcript).is_none());
    // Nothing was appended
    assert_eq!(next_bytes(&mut transcript), next_bytes(&mut Transcript::new(b"proof")));
    // Other draws do, and are what the blinders begin with
    let (r, z_head) = (scalars(&[1, 2, 5, 6]), scalars(&[3, 4]));
    let proof = from_draws(&r, &z_head, &mut Transcript::new(b"proof")).unwrap();
    let r_d = solve_ipa_blinders(&r, &z_head, &s.c, &s.d).unwrap();
    assert_eq!(encoding(&proof), encoding(&prove(&s, &r, &r_d, &mut Transcript::new(b"proof"))));
    assert!(accepted(&proof, &s, &mut rng));
}

#[test]
fn new_proof_uses_the_drawn_blinders() {
    let mut rng = StdRng::seed_from_u64(33);
    let s = statement(5, &mut rng);
    let mut transcript = Transcript::new(b"proof");
    let proof = InnerProductProof::new(
        s.G.clone(),
        s.G_prime.clone(),
        &s.H,
        s.C,
        s.D,
        s.z,
        s.c.clone(),
        s.d.clone(),
        &mut transcript,
        &mut StdRng::seed_from_u64(34),
    )
    .unwrap();
    let (r_c, r_d) = generate_ipa_blinders(&mut StdRng::seed_from_u64(34), &s.c, &s.d).unwrap();
    let mut expected_transcript = Transcript::new(b"proof");
    let expected = prove(&s, &r_c, &r_d, &mut expected_transcript);
    assert_eq!(encoding(&proof), encoding(&expected));
    assert_eq!(next_bytes(&mut transcript), next_bytes(&mut expected_transcript));
}

#[test]
fn transcripts_of_prover_and_verifier_agree() {
    let mut rng = StdRng::seed_from_u64(6);
    for n in [2usize, 3, 5, 8, 11] {
        let s = statement(n, &mut rng);
        let (r_c, r_d) = generate_ipa_blinders(&mut rng, &s.c, &s.d).unwrap();
        let mut prover = Transcript::new(b"proof");
        let proof = prove(&s, &r_c, &r_d, &mut prover);
        let mut verifier = Transcript::new(b"proof");
        let (first, second) = proof
            .verification_checks(&s.G, &s.H, s.C, s.D, s.z, s.u.clone(), &mut verifier)
            .unwrap();
        assert!(msm(&first.bases, &first.scalars).same_point(&first.point));
        assert!(msm(&second.bases, &second.scalars).same_point(&second.point));
        assert_eq!(next_bytes(&mut prover), next_bytes(&mut verifier));
        assert_eq!(proof.num_rounds(), n.next_power_of_two().trailing_zeros() as usize);
    }
}

/// The challenge that a transcript gives, computed step by step.
fn plain_challenge(transcript: &mut Transcript, label: &'static [u8]) -> Fr {
    let mut bytes = [0u8; 64];
    transcript.challenge_bytes(label, &mut bytes);
    let challenge = Fr::from_le_bytes_mod_order(&bytes);
    transcript.append_message(label, &fr_bytes(challenge));
    challenge
}

#[test]
fn proof_exact_value() {
    for n in [2usize, 3, 4, 6, 7, 9] {
        let mut rng = StdRng::seed_from_u64(20 + n as u64);
        let s = statement(n, &mut rng);
        let (r_c, r_d) = generate_ipa_blinders(&mut rng, &s.c, &s.d).unwrap();
        let proof = prove(&s, &r_c, &r_d, &mut Transcript::new(b"proof"));

        // The same proof out of group and field operations
        let group = |p: &ProjectivePoint| G1Projective::deserialize_compressed(&p.to_bytes()[..]).unwrap();
        let one = Scalar::from_u64(1);
        let mut G: Vec<G1Projective> = s.G.iter().map(|p| group(&p.times(&one))).collect();
        let mut G_prime: Vec<G1Projective> = s.G_prime.iter().map(|p| group(&p.times(&one))).collect();
        let mut c: Vec<Fr> = s.c.iter().map(fr).collect();
        let mut d: Vec<Fr> = s.d.iter().map(fr).collect();
        let (rc, rd): (Vec<Fr>, Vec<Fr>) = (r_c.iter().map(fr).collect(), r_d.iter().map(fr).collect());
        let commit = |g: &[G1Projective], x: &[Fr]| -> G1Projective {
            g.iter().zip(x).map(|(g, x)| *g * *x).sum()
        };
        let product = |x: &[Fr], y: &[Fr]| -> Fr { x.iter().zip(y).map(|(x, y)| *x * *y).sum() };
        let mut transcript = Transcript::new(b"proof");
        let (B_c, B_d) = (commit(&G, &rc), commit(&G_prime, &rd));
        transcript.append_message(b"ipa_step1", &s.C.to_bytes());
        transcript.append_message(b"ipa_step1", &s.D.to_bytes());
        transcript.append_message(b"ipa_step1", &s.z.to_bytes());
        transcript.append_message(b"ipa_step1", &g1_bytes(B_c));
        transcript.append_message(b"ipa_step1", &g1_bytes(B_d));
        let alpha = plain_challenge(&mut transcript, b"ipa_alpha");
        let beta = plain_challenge(&mut transcript, b"ipa_beta");
        for i in 0..n {
            c[i] = rc[i] + alpha * c[i];
            d[i] = rd[i] + alpha * d[i];
        }
        let H = group(&s.H) * beta;
        let (mut L_Cs, mut R_Cs, mut L_Ds, mut R_Ds) = (vec![], vec![], vec![], vec![]);
        while c.len() > 1 {
            let first = c.len().next_power_of_two() >> 1;
            let count = c.len() - first;
            let start = (first - count) >> 1;
            let end = start + count;
            let L_C = commit(&G[first..], &c[start..end]) + H * product(&c[start..end], &d[first..]);
            let L_D = commit(&G_prime[start..end], &d[first..]);
            let R_C = commit(&G[start..end], &c[first..]) + H * product(&c[first..], &d[start..end]);
            let R_D = commit(&G_prime[first..], &d[start..end]);
            for p in [L_C, L_D, R_C, R_D] {
                transcript.append_message(b"ipa_loop", &g1_bytes(p));
            }
            let gamma = plain_challenge(&mut transcript, b"ipa_gamma");
            let inv = gamma.inverse().unwrap();
            for i in 0..count {
                let (x, y) = (c[first + i], d[first + i]);
                c[start + i] += inv * x;
                d[start + i] += gamma * y;
                let (g, h) = (G[first + i], G_prime[first + i]);
                G[start + i] += g * gamma;
                G_prime[start + i] += h * inv;
            }
            c.truncate(first);
            d.truncate(first);
            G.truncate(first);
            G_prime.truncate(first);
            L_Cs.push(L_C);
            R_Cs.push(R_C);
            L_Ds.push(L_D);
            R_Ds.push(R_D);
        }
        let mut expected = g1_bytes(B_c);
        expected.extend(g1_bytes(B_d));
        for p in L_Cs.into_iter().chain(R_Cs).chain(L_Ds).chain(R_Ds) {
            expected.extend(g1_bytes(p));
        }
        expected.extend(fr_bytes(c[0]));
        expected.extend(fr_bytes(d[0]));
        assert_eq!(encoding(&proof), expected);
    }
}

#[test]
fn one_entry_needs_no_rounds() {
    let mut rng = StdRng::seed_from_u64(7);
    let s = statement(1, &mut rng);
    // <r_c, r_d> = 0 and <r_c, d> + <r_d, c> = 0
    let zero = scalars(&[0]);
    let proof = prove(&s, &zero, &zero, &mut Transcript::new(b"proof"));
    assert_eq!(proof.num_rounds(), 0);
    assert!(accepted(&proof, &s, &mut rng));
}

#[test]
fn proof_is_a_function_of_the_blinders() {
    let mut rng = StdRng::seed_from_u64(8);
    let s = statement(6, &mut rng);
    let (r_c, r_d) = generate_ipa_blinders(&mut rng, &s.c, &s.d).unwrap();
    let one = prove(&s, &r_c, &r_d, &mut Transcript::new(b"proof"));
    let two = prove(&s, &r_c, &r_d, &mut Transcript::new(b"proof"));
    assert_eq!(encoding(&one), encoding(&two));
    assert_eq!(encoding(&one), encoding(&one.clone()));
    // Another transcript, another proof
    let other = prove(&s, &r_c, &r_d, &mut Transcript::new(b"other"));
    assert!(encoding(&one) != encoding(&other));
}

#[test]
fn improper_blinders_are_noticed() {
    let mut rng = StdRng::seed_from_u64(9);
    let s = statement(4, &mut rng);
    let r_c = generate_blinders(&mut rng, 4);
    let r_d = generate_blinders(&mut rng, 4);
    let proof = prove(&s, &r_c, &r_d, &mut Transcript::new(b"proof"));
    assert!(!accepted(&proof, &s, &mut rng));
}

#[test]
fn wrong_commitments_are_noticed() {
    let mut rng = StdRng::seed_from_u64(10);
    let mut s = statement(5, &mut rng);
    let (r_c, r_d) = generate_ipa_blinders(&mut rng, &s.c, &s.d).unwrap();
    let proof = prove(&s, &r_c, &r_d, &mut Transcript::new(b"proof"));
    assert!(accepted(&proof, &s, &mut rng));
    let C = s.C;
    s.C = s.D;
    assert!(!accepted(&proof, &s, &mut rng));
    s.C = C;
    s.D = C;
    assert!(!accepted(&proof, &s, &mut rng));
}

#[test]
fn proof_is_read_back() {
    let mut rng = StdRng::seed_from_u64(11);
    let s = statement(7, &mut rng);
    let (r_c, r_d) = generate_ipa_blinders(&mut rng, &s.c, &s.d).unwrap();
    let proof = prove(&s, &r_c, &r_d, &mut Transcript::new(b"proof"));
    let bytes = encoding(&proof);
    assert_eq!(bytes.len(), 160 + 192 * 3);
    let read = InnerProductProof::deserialize(&bytes, 3).unwrap();
    assert_eq!(encoding(&read), bytes);
    assert!(accepted(&read, &s, &mut rng));
    // What follows is not looked at
    let mut longer = bytes.clone();
    longer.extend([9, 9, 9]);
    assert_eq!(encoding(&InnerProductProof::deserialize(&longer, 3).unwrap()), bytes);
}

#[test]
fn tampered_proof_is_noticed() {
    let mut rng = StdRng::seed_from_u64(12);
    let s = statement(4, &mut rng);
    let (r_c, r_d) = generate_ipa_blinders(&mut rng, &s.c, &s.d).unwrap();
    let proof = prove(&s, &r_c, &r_d, &mut Transcript::new(b"proof"));
    let bytes = encoding(&proof);
    // Each point in turn becomes the generator, each scalar 1
    let generator = g1_bytes(G1Affine::generator().into_group());
    let points = 2 + 4 * 2;
    for i in 0..points {
        let mut changed = bytes.clone();
        changed[48 * i..48 * (i + 1)].copy_from_slice(&generator);
        let other = InnerProductProof::deserialize(&changed, 2).unwrap();
        assert!(!accepted(&other, &s, &mut rng));
    }
    for i in 0..2 {
        let start = 48 * points + 32 * i;
        let mut changed = bytes.clone();
        changed[start..start + 32].copy_from_slice(&fr_bytes(Fr::from(1u64)));
        let other = InnerProductProof::deserialize(&changed, 2).unwrap();
        assert!(!accepted(&other, &s, &mut rng));
    }
}

#[test]
fn proof_bytes_that_are_refused() {
    let mut rng = StdRng::seed_from_u64(13);
    let s = statement(4, &mut rng);
    let (r_c, r_d) = generate_ipa_blinders(&mut rng, &s.c, &s.d).unwrap();
    let bytes = encoding(&prove(&s, &r_c, &r_d, &mut Transcript::new(b"proof")));
    let points = 2 + 4 * 2;
    // Cut off inside a point, and inside either scalar
    for i in 0..points {
        assert_eq!(
            InnerProductProof::deserialize(&bytes[..48 * i + 47], 2).err(),
            Some(SerializationError::InvalidData)
        );
    }
    for len in [48 * points, 48 * points + 31, 48 * points + 32, bytes.len() - 1] {
        assert_eq!(
            InnerProductProof::deserialize(&bytes[..len], 2).err(),
            Some(SerializationError::IoError)
        );
    }
    // A point that is not marked as compressed
    for i in 0..points {
        let mut changed = bytes.clone();
        changed[48 * i] &= 0x7f;
        assert_eq!(
            InnerProductProof::deserialize(&changed, 2).err(),
            Some(SerializationError::UnexpectedFlags)
        );
    }
    // A scalar that is too large
    let mut changed = bytes.clone();
    let last = changed.len() - 1;
    changed[last] = 0xff;
    assert_eq!(
        InnerProductProof::deserialize(&changed, 2).err(),
        Some(SerializationError::InvalidData)
    );
}

#[test]
fn too_many_rounds_are_refused() {
    let mut rng = StdRng::seed_from_u64(14);
    let s = statement(2, &mut rng);
    let generator = g1_bytes(G1Affine::generator().into_group());
    let mut bytes = Vec::new();
    for _ in 0..2 + 4 * 32 {
        bytes.extend(&generator);
    }
    bytes.extend(fr_bytes(Fr::from(1u64)));
    bytes.extend(fr_bytes(Fr::from(1u64)));
    let proof = InnerProductProof::deserialize(&bytes, 32).unwrap();
    assert_eq!(proof.num_rounds(), 32);
    let mut accumulator = MsmAccumulator::new();
    let res = proof.verify(
        &s.G,
        &s.H,
        s.C,
        s.D,
        s.z,
        s.u.clone(),
        &mut Transcript::new(b"proof"),
        &mut accumulator,
        &mut rng,
    );
    assert_eq!(res, Err(ProofError::VerificationError));
    // Nothing was drawn
    let mut untouched = StdRng::seed_from_u64(14);
    statement(2, &mut untouched);
    assert_eq!(rng, untouched);
    // Nothing was accumulated
    assert!(accumulator.verify().is_ok());
    assert_eq!(
        proof.verification_scalars(2, &mut Transcript::new(b"proof")).err(),
        Some(ProofError::VerificationError)
    );
}

#[test]
fn verification_scalars_multiply_out() {
    let mut rng = StdRng::seed_from_u64(15);
    let s = statement(5, &mut rng);
    let (r_c, r_d) = generate_ipa_blinders(&mut rng, &s.c, &s.d).unwrap();
    let proof = prove(&s, &r_c, &r_d, &mut Transcript::new(b"proof"));
    let (gammas, invs, ss, inv_ss) =
        proof.verification_scalars(5, &mut Transcript::new(b"rounds")).unwrap();
    let g: Vec<Fr> = gammas.iter().map(fr).collect();
    assert_eq!(g.len(), 3);
    let one = Fr::from(1u64);
    let expected = [one, g[2], g[1], g[1] * g[2], g[0] * g[2]];
    for i in 0..5 {
        assert_eq!(fr(&ss[i]), expected[i]);
        assert_eq!(fr(&inv_ss[i]) * expected[i], one);
    }
    for i in 0..3 {
        assert_eq!(fr(&invs[i]) * g[i], one);
    }
}

#[test]
fn folding_scalars_fold_the_basis() {
    // Folding the basis (G, H, K) first with a and then with b leaves G + b H + a K: the first round
    // folds the third entry into the first one
    let mut rng = StdRng::seed_from_u64(16);
    let s = statement(3, &mut rng);
    let (r_c, r_d) = generate_ipa_blinders(&mut rng, &s.c, &s.d).unwrap();
    let proof = prove(&s, &r_c, &r_d, &mut Transcript::new(b"proof"));
    let (gammas, _, ss, _) = proof.verification_scalars(3, &mut Transcript::new(b"rounds")).unwrap();
    assert_eq!(ss, vec![Scalar::from_u64(1), gammas[1], gammas[0]]);
}

#[test]
fn accumulator_of_nothing() {
    assert!(MsmAccumulator::new().verify().is_ok());
}

#[test]
fn accumulator_of_checks_that_hold() {
    let mut rng = StdRng::seed_from_u64(17);
    let g = AffinePoint::generator();
    let bases = [g, g.times(&Scalar::from_u64(10)).to_affine()];
    let mut accumulator = MsmAccumulator::new();
    for k in 1..4 {
        let sum = g.times(&Scalar::from_u64(k + 10 * 3));
        accumulator.accumulate_check(&sum, &scalars(&[k, 3]), &bases, &mut rng);
    }
    // What has no partner is left out
    let one = g.times(&Scalar::from_u64(4));
    accumulator.accumulate_check(&one, &scalars(&[4]), &bases, &mut rng);
    accumulator.accumulate_check(&one, &scalars(&[4, 7, 7]), &bases[..1], &mut rng);
    assert_eq!(accumulator.verify(), Ok(()));
}

#[test]
fn accumulator_notices_a_check_that_fails() {
    let mut rng = StdRng::seed_from_u64(18);
    let g = AffinePoint::generator();
    let mut accumulator = MsmAccumulator::new();
    accumulator.accumulate_check(&g.times(&Scalar::from_u64(5)), &scalars(&[5]), &[g], &mut rng);
    accumulator.accumulate_check(&g.times(&Scalar::from_u64(5)), &scalars(&[6]), &[g], &mut rng);
    accumulator.accumulate_check(&g.times(&Scalar::from_u64(7)), &scalars(&[7]), &[g], &mut rng);
    assert_eq!(accumulator.verify(), Err(ProofError::VerificationError));
}

#[test]
fn both_checks_under_their_weights() {
    let g = AffinePoint::generator();
    // Off by 3 and by -1
    let check = |point: u64, scalar: u64| MsmCheck {
        point: g.times(&Scalar::from_u64(point)),
        scalars: scalars(&[scalar]),
        bases: vec![g],
    };
    for (w1, w2, ok) in [(1, 3, true), (2, 6, true), (3, 1, false), (1, 1, false)] {
        let mut accumulator = MsmAccumulator::new();
        accumulator.accumulate_both(
            &check(5, 2),
            &check(1, 2),
            &Scalar::from_u64(w1),
            &Scalar::from_u64(w2),
        );
        assert_eq!(accumulator.verify().is_ok(), ok);
    }
}

#[test]
fn one_weight_hides_a_check_that_fails() {
    let g = AffinePoint::generator();
    for weight in 0..5 {
        let mut accumulator = MsmAccumulator::new();
        // Off by 4 and, under the weight, by -2 each
        accumulator.accumulate_weighted(
            &g.times(&Scalar::from_u64(4)),
            &scalars(&[0]),
            &[g],
            &Scalar::from_u64(1),
        );
        accumulator.accumulate_weighted(
            &g.times(&Scalar::from_u64(1)),
            &scalars(&[3]),
            &[g],
            &Scalar::from_u64(weight),
        );
        assert_eq!(accumulator.verify().is_ok(), weight == 2);
    }
}
