#![allow(non_snake_case)]
use ark_bls12_381::{Fr, G1Affine, G1Projective};
use ark_ec::{AffineRepr, CurveGroup};
use ark_ff::Field;
use ark_serialize::CanonicalSerialize;
use ark_std::rand::{rngs::StdRng, SeedableRng};
use ark_std::{UniformRand, Zero};
use curdleproofs::crs::{CurdleproofsCrs, N_BLINDERS};
use curdleproofs::errors::SerializationError;
use curdleproofs::point::{AffinePoint, ProjectivePoint};
use curdleproofs::scalar::Scalar;
use curdleproofs::util::{
    deserialize_g1projective_vec, generate_blinders, get_permutation,
    get_verification_scalars_bitstring, inner_product, msm, msm_from_projective,
    serialize_g1projective_vec, shuffle_permute_and_commit_input, sum_affine_points,
};

fn fr_bytes(x: Fr) -> Vec<u8> {
    let mut bytes = Vec::new();
    x.serialize_compressed(&mut bytes).unwrap();
    bytes
}

fn g1_bytes(p: G1Projective) -> Vec<u8> {
    let mut bytes = Vec::new();
    p.serialize_compressed(&mut bytes).unwrap();
    bytes
}

fn scalar(x: Fr) -> Scalar {
    Scalar::from_bytes(&fr_bytes(x)).unwrap()
}

fn point(p: G1Projective) -> ProjectivePoint {
    ProjectivePoint::from_bytes(&g1_bytes(p)).unwrap()
}

/// The generator multiplied by `k`.
fn multiple(k: u64) -> G1Projective {
    G1Affine::generator() * Fr::from(k)
}

fn scalars(v: &[u64]) -> Vec<Scalar> {
    v.iter().map(|x| Scalar::from_u64(*x)).collect()
}

#[test]
fn bitstring_of_five() {
    assert_eq!(
        get_verification_scalars_bitstring(5, 3),
        vec![vec![], vec![2], vec![1], vec![1, 2], vec![0, 2]]
    );
}

#[test]
fn bitstring_of_six() {
    // Two entries are folded into the middle of four
    assert_eq!(
        get_verification_scalars_bitstring(6, 3),
        vec![vec![], vec![2], vec![1], vec![1, 2], vec![0, 2], vec![0, 1]]
    );
}

#[test]
fn bitstring_of_a_power_of_two_is_binary() {
    let bitstring = get_verification_scalars_bitstring(8, 3);
    assert_eq!(bitstring.len(), 8);
    for (i, rounds) in bitstring.iter().enumerate() {
        let expected: Vec<usize> = (0..3).filter(|j| (i >> (2 - j)) & 1 == 1).collect();
        assert_eq!(rounds, &expected);
    }
}

#[test]
fn bitstring_of_some_rounds() {
    assert_eq!(
        get_verification_scalars_bitstring(5, 1),
        vec![vec![], vec![], vec![], vec![], vec![0]]
    );
    assert_eq!(get_verification_scalars_bitstring(3, 0), vec![Vec::<usize>::new(); 3]);
}

#[test]
fn bitstring_of_little() {
    assert_eq!(get_verification_scalars_bitstring(1, 0), vec![Vec::<usize>::new()]);
    assert_eq!(get_verification_scalars_bitstring(0, 0), Vec::<Vec<usize>>::new());
    assert_eq!(get_verification_scalars_bitstring(0, 4), Vec::<Vec<usize>>::new());
}

#[test]
fn bitstring_rounds_are_in_order() {
    for n in 2..70usize {
        let logn = n.next_power_of_two().trailing_zeros() as usize;
        for rounds in get_verification_scalars_bitstring(n, logn) {
            assert!(rounds.windows(2).all(|w| w[0] < w[1]));
            assert!(rounds.iter().all(|j| *j < logn));
        }
    }
}

#[test]
fn permutation_picks_entries() {
    assert_eq!(get_permutation(&[10, 20, 30], &[2, 0, 1]), vec![30, 10, 20]);
    assert_eq!(get_permutation(&[10, 20, 30], &[1, 1]), vec![20, 20]);
    assert_eq!(get_permutation(&[10, 20, 30], &[]), Vec::<i32>::new());
}

#[test]
fn permutation_keeps_entries() {
    let v = [5, 3, 5, 9, 1];
    let mut permuted = get_permutation(&v, &[4, 2, 0, 3, 1]);
    assert_eq!(permuted, vec![1, 5, 5, 9, 3]);
    permuted.sort();
    assert_eq!(permuted, vec![1, 3, 5, 5, 9]);
}

#[test]
fn inner_product_wraps_at_the_order() {
    let minus_one = -Fr::from(1u64);
    let product = inner_product(
        &[scalar(minus_one), Scalar::from_u64(5)],
        &[Scalar::from_u64(2), Scalar::from_u64(1)],
    );
    assert_eq!(product, Scalar::from_u64(3));
    assert_eq!(inner_product(&[], &[]), Scalar::from_u64(0));
}

#[test]
fn scalars_are_little_endian() {
    let mut expected = vec![0u8; 32];
    expected[0] = 0x34;
    expected[1] = 0x12;
    assert_eq!(Scalar::from_u64(0x1234).to_bytes(), expected);
    let minus_two = -Fr::from(2u64);
    assert_eq!(scalar(minus_two).to_bytes(), fr_bytes(minus_two));
}

#[test]
fn scalar_bytes_that_are_refused() {
    // The group order itself is not below the group order
    let mut order = fr_bytes(-Fr::from(1u64));
    order[0] += 1;
    assert_eq!(Scalar::from_bytes(&order), Err(SerializationError::InvalidData));
    assert_eq!(Scalar::from_bytes(&[0u8; 31]), Err(SerializationError::IoError));
    // What follows a scalar is not looked at
    let mut bytes = fr_bytes(Fr::from(7u64));
    bytes.push(255);
    assert_eq!(Scalar::from_bytes(&bytes), Ok(Scalar::from_u64(7)));
}

#[test]
fn generator_and_multiples() {
    let g = AffinePoint::generator();
    assert_eq!(g.times(&Scalar::from_u64(1)).to_bytes(), g1_bytes(multiple(1)));
    assert_eq!(g.times(&Scalar::from_u64(12)).to_bytes(), g1_bytes(multiple(12)));
    let three = point(multiple(3)).to_affine();
    assert_eq!(three.times(&Scalar::from_u64(5)).to_bytes(), g1_bytes(multiple(15)));
}

#[test]
fn msm_exact_value() {
    let points = vec![
        point(multiple(2)).to_affine(),
        point(multiple(3)).to_affine(),
        point(multiple(11)).to_affine(),
    ];
    let sum = msm(&points, &scalars(&[5, 7, 100]));
    assert_eq!(sum.to_bytes(), g1_bytes(multiple(2 * 5 + 3 * 7 + 11 * 100)));
    assert_eq!(msm(&[], &[]).to_bytes(), g1_bytes(G1Projective::zero()));
}

#[test]
fn msm_from_projective_agrees() {
    let points = vec![point(multiple(2)), point(multiple(3)), point(G1Projective::zero())];
    let sum = msm_from_projective(&points, &scalars(&[4, 9, 6]));
    assert_eq!(sum.to_bytes(), g1_bytes(multiple(2 * 4 + 3 * 9)));
    let affine: Vec<AffinePoint> = points.iter().map(|p| p.to_affine()).collect();
    assert!(sum.same_point(&msm(&affine, &scalars(&[4, 9, 6]))));
    assert!(!sum.same_point(&points[0]));
}

#[test]
fn sums_of_points() {
    let points: Vec<AffinePoint> = (1..5).map(|k| point(multiple(k)).to_affine()).collect();
    let sum = sum_affine_points(&points);
    assert_eq!(sum.times(&Scalar::from_u64(1)).to_bytes(), g1_bytes(multiple(10)));
    let nothing = sum_affine_points(&[]);
    assert_eq!(nothing.times(&Scalar::from_u64(1)).to_bytes(), g1_bytes(G1Projective::zero()));
}

#[test]
fn blinders_come_from_the_generator() {
    let blinders = generate_blinders(&mut StdRng::seed_from_u64(9), 5);
    let mut rng = StdRng::seed_from_u64(9);
    let expected: Vec<Scalar> = (0..5).map(|_| scalar(Fr::rand(&mut rng))).collect();
    assert_eq!(blinders, expected);
    // No blinders, no draws
    let before = rng.clone();
    assert_eq!(generate_blinders(&mut rng, 0).len(), 0);
    assert_eq!(rng, before);
}

#[test]
fn shuffled_input() {
    let mut rng = StdRng::seed_from_u64(3);
    let ell = 5usize;
    let G: Vec<G1Affine> = (0..ell).map(|_| G1Projective::rand(&mut rng).into_affine()).collect();
    let H: Vec<G1Affine> =
        (0..N_BLINDERS).map(|_| G1Projective::rand(&mut rng).into_affine()).collect();
    let R: Vec<G1Affine> = (0..ell).map(|_| G1Projective::rand(&mut rng).into_affine()).collect();
    let S: Vec<G1Affine> = (0..ell).map(|_| G1Projective::rand(&mut rng).into_affine()).collect();
    let k = Fr::rand(&mut rng);
    let permutation = [3u32, 0, 4, 1, 2];
    let ours = |v: &[G1Affine]| -> Vec<AffinePoint> {
        v.iter().map(|p| point(p.into_group()).to_affine()).collect()
    };
    let crs = CurdleproofsCrs { vec_G: ours(&G), vec_H: ours(&H) };
    let mut blinder_rng = StdRng::seed_from_u64(4);
    let (T, U, M, blinders) = shuffle_permute_and_commit_input(
        &crs,
        &ours(&R),
        &ours(&S),
        &permutation,
        &scalar(k),
        &mut blinder_rng,
    );
    assert_eq!(T.len(), ell);
    assert_eq!(U.len(), ell);
    let one = Scalar::from_u64(1);
    for i in 0..ell {
        let j = permutation[i] as usize;
        assert_eq!(T[i].times(&one).to_bytes(), g1_bytes(R[j] * k));
        assert_eq!(U[i].times(&one).to_bytes(), g1_bytes(S[j] * k));
    }
    let mut expected_rng = StdRng::seed_from_u64(4);
    let mut expected = G1Projective::zero();
    for i in 0..ell {
        expected += G[i] * Fr::from(permutation[i]);
    }
    for i in 0..N_BLINDERS {
        let blinder = Fr::rand(&mut expected_rng);
        assert_eq!(blinders[i], scalar(blinder));
        expected += H[i] * blinder;
    }
    assert_eq!(blinders.len(), 4);
    assert_eq!(M.to_bytes(), g1_bytes(expected));
}

#[test]
fn shuffled_back() {
    let mut rng = StdRng::seed_from_u64(5);
    let ours = |n: u64| -> Vec<AffinePoint> { (0..n).map(|k| point(multiple(k)).to_affine()).collect() };
    let crs = CurdleproofsCrs { vec_G: ours(4), vec_H: ours(4) };
    let (R, S) = (ours(4), ours(4));
    let k = Fr::rand(&mut rng);
    let (T, U, _, _) = shuffle_permute_and_commit_input(
        &crs,
        &R,
        &S,
        &[2, 0, 3, 1],
        &scalar(k),
        &mut rng,
    );
    let (R2, S2, _, _) = shuffle_permute_and_commit_input(
        &crs,
        &T,
        &U,
        &[1, 3, 0, 2],
        &scalar(k.inverse().unwrap()),
        &mut rng,
    );
    let one = Scalar::from_u64(1);
    for i in 0..4 {
        assert_eq!(R2[i].times(&one).to_bytes(), R[i].times(&one).to_bytes());
        assert_eq!(S2[i].times(&one).to_bytes(), S[i].times(&one).to_bytes());
    }
}

#[test]
fn points_are_read_back() {
    let points = vec![point(multiple(8)), point(G1Projective::zero()), point(multiple(6))];
    let mut bytes = vec![1u8, 2];
    serialize_g1projective_vec(&points, &mut bytes).unwrap();
    let mut expected = vec![1u8, 2];
    expected.extend(g1_bytes(multiple(8)));
    expected.extend(g1_bytes(G1Projective::zero()));
    expected.extend(g1_bytes(multiple(6)));
    assert_eq!(bytes, expected);
    let read = deserialize_g1projective_vec(&bytes[2..], 3).unwrap();
    assert_eq!(read.len(), 3);
    for (p, q) in points.iter().zip(&read) {
        assert!(p.same_point(q));
    }
    // Fewer points than there are
    assert_eq!(deserialize_g1projective_vec(&bytes[2..], 2).unwrap().len(), 2);
    assert_eq!(deserialize_g1projective_vec(&[], 0).unwrap().len(), 0);
}

#[test]
fn point_bytes_that_are_refused() {
    let good = g1_bytes(multiple(8));
    // One byte too few
    assert_eq!(
        deserialize_g1projective_vec(&good[..47], 1).err(),
        Some(SerializationError::InvalidData)
    );
    // More points than there are
    assert_eq!(
        deserialize_g1projective_vec(&good, 2).err(),
        Some(SerializationError::InvalidData)
    );
    // Not marked as compressed
    let mut plain = good.clone();
    plain[0] &= 0x7f;
    assert_eq!(
        deserialize_g1projective_vec(&plain, 1).err(),
        Some(SerializationError::UnexpectedFlags)
    );
    // The first error counts
    let mut both = plain.clone();
    both.extend(&good[..20]);
    assert_eq!(
        deserialize_g1projective_vec(&both, 2).err(),
        Some(SerializationError::UnexpectedFlags)
    );
    // A coordinate that is not below the modulus
    assert_eq!(
        deserialize_g1projective_vec(&[0x9f; 48], 1).err(),
        Some(SerializationError::InvalidData)
    );
}
