#![allow(non_snake_case)]
use ark_bls12_381::{Fr, G1Projective};
use ark_serialize::CanonicalSerialize;
use ark_std::rand::{rngs::StdRng, Rng, SeedableRng};
use ark_std::UniformRand;
use core::iter;
use curdleproofs::inner_product_argument::InnerProductProof;
use curdleproofs::msm_accumulator::MsmAccumulator;
use curdleproofs::point::{AffinePoint, ProjectivePoint};
use curdleproofs::scalar::Scalar;
use curdleproofs::util::{generate_blinders, inner_product, msm};

fn point(p: G1Projective) -> ProjectivePoint {
    let mut bytes = Vec::new();
    p.serialize_compressed(&mut bytes).unwrap();
    ProjectivePoint::from_bytes(&bytes).unwrap()
}

fn scalar(s: Fr) -> Scalar {
    let mut bytes = Vec::new();
    s.serialize_compressed(&mut bytes).unwrap();
    Scalar::from_bytes(&bytes).unwrap()
}

fn plus_one(s: &Scalar) -> Scalar {
    inner_product(
        &[*s, Scalar::from_u64(1)],
        &[Scalar::from_u64(1), Scalar::from_u64(1)],
    )
}

fn testhelper(n_param: usize) {
    let mut rng = StdRng::seed_from_u64(0u64);
    let mut transcript_prover = merlin::Transcript::new(b"IPA");

    let n = n_param;

    let crs_G_vec: Vec<AffinePoint> =
        iter::repeat_with(|| point(G1Projective::rand(&mut rng)).to_affine())
            .take(n)
            .collect();
    // The basis of the second vector is that of the first one with its points multiplied by `vec_u`
    let vec_u = generate_blinders(&mut rng, n);
    let crs_G_prime_vec: Vec<AffinePoint> = crs_G_vec
        .iter()
        .zip(&vec_u)
        .map(|(G_i, u_i)| G_i.times(u_i).to_affine())
        .collect();
    let crs_H = point(G1Projective::rand(&mut rng));

    // Generate some random vectors
    let vec_b: Vec<Scalar> = iter::repeat_with(|| scalar(rng.gen())).take(n).collect();
    let vec_c: Vec<Scalar> = iter::repeat_with(|| scalar(rng.gen())).take(n).collect();

    let z = inner_product(&vec_b, &vec_c);

    // Create commitments
    let B = msm(&crs_G_vec, &vec_b);
    let C = msm(&crs_G_prime_vec, &vec_c);

    let proof = InnerProductProof::new(
        crs_G_vec.clone(),
        crs_G_prime_vec.clone(),
        &crs_H,
        B.clone(),
        C.clone(),
        z,
        vec_b.clone(),
        vec_c.clone(),
        &mut transcript_prover,
        &mut rng,
    )
    .unwrap();

    // Reset the FS
    let mut transcript_verifier = merlin::Transcript::new(b"IPA");
    let mut msm_accumulator = MsmAccumulator::new();

    assert!(proof
        .verify(
            &crs_G_vec,
            &crs_H,
            B,
            C,
            z,
            vec_u.clone(),
            &mut transcript_verifier,
            &mut msm_accumulator,
            &mut rng,
        )
        .is_ok());

    assert!(msm_accumulator.verify().is_ok());

    // A basic bad proof test where we provide the wrong inner product result to the verifier
    let mut transcript_verifier = merlin::Transcript::new(b"IPA");
    let mut msm_accumulator = MsmAccumulator::new();

    assert!(proof
        .verify(
            &crs_G_vec,
            &crs_H,
            B,
            C,
            plus_one(&z),
            vec_u,
            &mut transcript_verifier,
            &mut msm_accumulator,
            &mut rng,
        )
        .is_ok());

    assert!(msm_accumulator.verify().is_err());
}

#[test]
fn test_inner_product_argument_n_62() {
    let mut rng = StdRng::seed_from_u64(0u64);
    let mut transcript_prover = merlin::Transcript::new(b"IPA");

    let n = 62;

    let crs_G_vec: Vec<AffinePoint> =
        iter::repeat_with(|| point(G1Projective::rand(&mut rng)).to_affine())
            .take(n)
            .collect();
    // The basis of the second vector is that of the first one with its points multiplied by `vec_u`
    let vec_u = generate_blinders(&mut rng, n);
    let crs_G_prime_vec: Vec<AffinePoint> = crs_G_vec
        .iter()
        .zip(&vec_u)
        .map(|(G_i, u_i)| G_i.times(u_i).to_affine())
        .collect();
    let crs_H = point(G1Projective::rand(&mut rng));

    // Generate some random vectors
    let vec_b: Vec<Scalar> = iter::repeat_with(|| scalar(rng.gen())).take(n).collect();
    let vec_c: Vec<Scalar> = iter::repeat_with(|| scalar(rng.gen())).take(n).collect();

    let z = inner_product(&vec_b, &vec_c);

    // Create commitments
    let B = msm(&crs_G_vec, &vec_b);
    let C = msm(&crs_G_prime_vec, &vec_c);

    let proof = InnerProductProof::new(
        crs_G_vec.clone(),
        crs_G_prime_vec.clone(),
        &crs_H,
        B.clone(),
        C.clone(),
        z,
        vec_b.clone(),
        vec_c.clone(),
        &mut transcript_prover,
        &mut rng,
    )
    .unwrap();

    // Reset the FS
    let mut transcript_verifier = merlin::Transcript::new(b"IPA");
    let mut msm_accumulator = MsmAccumulator::new();

    assert!(proof
        .verify(
            &crs_G_vec,
            &crs_H,
            B,
            C,
            z,
            vec_u.clone(),
            &mut transcript_verifier,
            &mut msm_accumulator,
            &mut rng,
        )
        .is_ok());

    assert!(msm_accumulator.verify().is_ok());

    // A basic bad proof test where we provide the wrong inner product result to the verifier
    let mut transcript_verifier = merlin::Transcript::new(b"IPA");
    let mut msm_accumulator = MsmAccumulator::new();

    assert!(proof
        .verify(
            &crs_G_vec,
            &crs_H,
            B,
            C,
            plus_one(&z),
            vec_u,
            &mut transcript_verifier,
            &mut msm_accumulator,
            &mut rng,
        )
        .is_ok());

    assert!(msm_accumulator.verify().is_err());
}

#[test]
fn test_inner_product_argument() {
    let mut rng = StdRng::seed_from_u64(0u64);
    let mut transcript_prover = merlin::Transcript::new(b"IPA");

    let n = 128;

    let crs_G_vec: Vec<AffinePoint> =
        iter::repeat_with(|| point(G1Projective::rand(&mut rng)).to_affine())
            .take(n)
            .collect();
    // The basis of the second vector is that of the first one with its points multiplied by `vec_u`
    let vec_u = generate_blinders(&mut rng, n);
    let crs_G_prime_vec: Vec<AffinePoint> = crs_G_vec
        .iter()
        .zip(&vec_u)
        .map(|(G_i, u_i)| G_i.times(u_i).to_affine())
        .collect();
    let crs_H = point(G1Projective::rand(&mut rng));

    // Generate some random vectors
    let vec_b: Vec<Scalar> = iter::repeat_with(|| scalar(rng.gen())).take(n).collect();
    let vec_c: Vec<Scalar> = iter::repeat_with(|| scalar(rng.gen())).take(n).collect();

    let z = inner_product(&vec_b, &vec_c);

    // Create commitments
    let B = msm(&crs_G_vec, &vec_b);
    let C = msm(&crs_G_prime_vec, &vec_c);

    let proof = InnerProductProof::new(
        crs_G_vec.clone(),
        crs_G_prime_vec.clone(),
        &crs_H,
        B.clone(),
        C.clone(),
        z,
        vec_b.clone(),
        vec_c.clone(),
        &mut transcript_prover,
        &mut rng,
    )
    .unwrap();

    // Reset the FS
    let mut transcript_verifier = merlin::Transcript::new(b"IPA");
    let mut msm_accumulator = MsmAccumulator::new();

    assert!(proof
        .verify(
            &crs_G_vec,
            &crs_H,
            B,
            C,
            z,
            vec_u.clone(),
            &mut transcript_verifier,
            &mut msm_accumulator,
            &mut rng,
        )
        .is_ok());

    assert!(msm_accumulator.verify().is_ok());

    // A basic bad proof test where we provide the wrong inner product result to the verifier
    let mut transcript_verifier = merlin::Transcript::new(b"IPA");
    let mut msm_accumulator = MsmAccumulator::new();

    assert!(proof
        .verify(
            &crs_G_vec,
            &crs_H,
            B,
            C,
            plus_one(&z),
            vec_u,
            &mut transcript_verifier,
            &mut msm_accumulator,
            &mut rng,
        )
        .is_ok());

    assert!(msm_accumulator.verify().is_err());
}

#[test]
fn test_inner_product() {
    let a = vec![
        Scalar::from_u64(1),
        Scalar::from_u64(2),
        Scalar::from_u64(3),
        Scalar::from_u64(4),
    ];
    let b = vec![
        Scalar::from_u64(2),
        Scalar::from_u64(3),
        Scalar::from_u64(4),
        Scalar::from_u64(5),
    ];
    assert_eq!(Scalar::from_u64(40), inner_product(&a, &b));
}

#[test]
fn test2() {
    testhelper(2);
}

#[test]
fn test3() {
    testhelper(3);
}

#[test]
fn test4() {
    testhelper(4);
}

#[test]
fn test5() {
    testhelper(5);
}

#[test]
fn test6() {
    testhelper(6);
}

#[test]
fn test7() {
    testhelper(7);
}

#[test]
fn test8() {
    testhelper(8);
}

#[test]
fn test9() {
    testhelper(9);
}

#[test]
fn test10() {
    testhelper(10);
}

#[test]
fn test11() {
    testhelper(11);
}

#[test]
fn test12() {
    testhelper(12);
}

#[test]
fn test13() {
    testhelper(13);
}

#[test]
fn test14() {
    testhelper(14);
}

#[test]
fn test15() {
    testhelper(15);
}

#[test]
fn test16() {
    testhelper(16);
}

#[test]
fn test17() {
    testhelper(17);
}

#[test]
fn test18() {
    testhelper(18);
}

#[test]
fn test19() {
    testhelper(19);
}

#[test]
fn test20() {
    testhelper(20);
}

#[test]
fn test21() {
    testhelper(21);
}

#[test]
fn test22() {
    testhelper(22);
}

#[test]
fn test23() {
    testhelper(23);
}

#[test]
fn test24() {
    testhelper(24);
}

#[test]
fn test25() {
    testhelper(25);
}

#[test]
fn test26() {
    testhelper(26);
}

#[test]
fn test27() {
    testhelper(27);
}

#[test]
fn test28() {
    testhelper(28);
}

#[test]
fn test29() {
    testhelper(29);
}

#[test]
fn test30() {
    testhelper(30);
}

#[test]
fn test31() {
    testhelper(31);
}

#[test]
fn test32() {
    testhelper(32);
}

#[test]
fn test33() {
    testhelper(33);
}

#[test]
fn test34() {
    testhelper(34);
}

#[test]
fn test35() {
    testhelper(35);
}

#[test]
fn test36() {
    testhelper(36);
}

#[test]
fn test37() {
    testhelper(37);
}

#[test]
fn test38() {
    testhelper(38);
}

#[test]
fn test39() {
    testhelper(39);
}

#[test]
fn test40() {
    testhelper(40);
}

#[test]
fn test41() {
    testhelper(41);
}

#[test]
fn test42() {
    testhelper(42);
}

#[test]
fn test43() {
    testhelper(43);
}

#[test]
fn test44() {
    testhelper(44);
}

#[test]
fn test45() {
    testhelper(45);
}

#[test]
fn test46() {
    testhelper(46);
}

#[test]
fn test47() {
    testhelper(47);
}

#[test]
fn test48() {
    testhelper(48);
}

#[test]
fn test49() {
    testhelper(49);
}

#[test]
fn test50() {
    testhelper(50);
}

#[test]
fn test51() {
    testhelper(51);
}

#[test]
fn test52() {
    testhelper(52);
}

#[test]
fn test53() {
    testhelper(53);
}

#[test]
fn test54() {
    testhelper(54);
}

#[test]
fn test55() {
    testhelper(55);
}

#[test]
fn test56() {
    testhelper(56);
}

#[test]
fn test57() {
    testhelper(57);
}

#[test]
fn test58() {
    testhelper(58);
}

#[test]
fn test59() {
    testhelper(59);
}

#[test]
fn test60() {
    testhelper(60);
}

#[test]
fn test61() {
    testhelper(61);
}

#[test]
fn test62() {
    testhelper(62);
}

#[test]
fn test63() {
    testhelper(63);
}

#[test]
fn test64() {
    testhelper(64);
}

#[test]
fn test65() {
    testhelper(65);
}

#[test]
fn test66() {
    testhelper(66);
}

#[test]
fn test67() {
    testhelper(67);
}

#[test]
fn test68() {
    testhelper(68);
}

#[test]
fn test69() {
    testhelper(69);
}

#[test]
fn test70() {
    testhelper(70);
}

#[test]
fn test71() {
    testhelper(71);
}

#[test]
fn test72() {
    testhelper(72);
}

#[test]
fn test73() {
    testhelper(73);
}

#[test]
fn test74() {
    testhelper(74);
}

#[test]
fn test75() {
    testhelper(75);
}

#[test]
fn test76() {
    testhelper(76);
}

#[test]
fn test77() {
    testhelper(77);
}

#[test]
fn test78() {
    testhelper(78);
}

#[test]
fn test79() {
    testhelper(79);
}

#[test]
fn test80() {
    testhelper(80);
}

#[test]
fn test81() {
    testhelper(81);
}

#[test]
fn test82() {
    testhelper(82);
}

#[test]
fn test83() {
    testhelper(83);
}

#[test]
fn test84() {
    testhelper(84);
}

#[test]
fn test85() {
    testhelper(85);
}

#[test]
fn test86() {
    testhelper(86);
}

#[test]
fn test87() {
    testhelper(87);
}

#[test]
fn test88() {
    testhelper(88);
}

#[test]
fn test89() {
    testhelper(89);
}

#[test]
fn test90() {
    testhelper(90);
}

#[test]
fn test91() {
    testhelper(91);
}

#[test]
fn test92() {
    testhelper(92);
}

#[test]
fn test93() {
    testhelper(93);
}

#[test]
fn test94() {
    testhelper(94);
}

#[test]
fn test95() {
    testhelper(95);
}

#[test]
fn test96() {
    testhelper(96);
}

#[test]
fn test97() {
    testhelper(97);
}

#[test]
fn test98() {
    testhelper(98);
}

#[test]
fn test99() {
    testhelper(99);
}

#[test]
fn test100() {
    testhelper(100);
}

#[test]
fn test101() {
    testhelper(101);
}

#[test]
fn test102() {
    testhelper(102);
}

#[test]
fn test103() {
    testhelper(103);
}

#[test]
fn test104() {
    testhelper(104);
}

#[test]
fn test105() {
    testhelper(105);
}

#[test]
fn test106() {
    testhelper(106);
}

#[test]
fn test107() {
    testhelper(107);
}

#[test]
fn test108() {
    testhelper(108);
}

#[test]
fn test109() {
    testhelper(109);
}

#[test]
fn test110() {
    testhelper(110);
}

#[test]
fn test111() {
    testhelper(111);
}

#[test]
fn test112() {
    testhelper(112);
}

#[test]
fn test113() {
    testhelper(113);
}

#[test]
fn test114() {
    testhelper(114);
}

#[test]
fn test115() {
    testhelper(115);
}

#[test]
fn test116() {
    testhelper(116);
}

#[test]
fn test117() {
    testhelper(117);
}

#[test]
fn test118() {
    testhelper(118);
}

#[test]
fn test119() {
    testhelper(119);
}

#[test]
fn test120() {
    testhelper(120);
}

#[test]
fn test121() {
    testhelper(121);
}

#[test]
fn test122() {
    testhelper(122);
}

#[test]
fn test123() {
    testhelper(123);
}

#[test]
fn test124() {
    testhelper(124);
}

#[test]
fn test125() {
    testhelper(125);
}

#[test]
fn test126() {
    testhelper(126);
}

#[test]
fn test127() {
    testhelper(127);
}

#[test]
fn test128() {
    testhelper(128);
}
